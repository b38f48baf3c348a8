//! Listing the resources of an index: the resources on a page, every
//! resource, and bare resource identifiers for dictionary IDs and URIs.
//!
//! A resource URI reads `"{base_uri}resource/{id}"`; the bare identifier is
//! the `{id}` part.

use vstd::prelude::*;
use crate::dictionary::{distinct_terms, Dictionary};
use crate::resource_map::{strip_prefix, stripped, ResourceMap, NOT_A_RESOURCE};
use crate::uri::{resource_prefix, resource_uri};

verus! {

/// Whether dictionary ID `i` is a resource, and on page `page` when one is given.
pub open spec fn selected(pages: Seq<u16>, i: int, page: Option<u32>) -> bool {
    &&& 0 <= i < pages.len()
    &&& pages[i] != NOT_A_RESOURCE
    &&& page matches Some(p) ==> pages[i] == p
}

/// The terms of the selected resources among the first `n` dictionary IDs,
/// in ID order.
pub open spec fn selected_terms(terms: Seq<Seq<char>>, pages: Seq<u16>, page: Option<u32>, n: int) -> Seq<
    Seq<char>,
>
    decreases n,
{
    if n <= 0 {
        Seq::empty()
    } else {
        let rest = selected_terms(terms, pages, page, n - 1);
        if selected(pages, n - 1, page) && n - 1 < terms.len() {
            rest.push(terms[n - 1])
        } else {
            rest
        }
    }
}

/// The bare identifiers of the selected resources among the first `n`
/// dictionary IDs whose terms start with `prefix`, in ID order.
pub open spec fn selected_ids(
    terms: Seq<Seq<char>>,
    pages: Seq<u16>,
    prefix: Seq<char>,
    page: Option<u32>,
    n: int,
) -> Seq<Seq<char>>
    decreases n,
{
    if n <= 0 {
        Seq::empty()
    } else {
        let rest = selected_ids(terms, pages, prefix, page, n - 1);
        if selected(pages, n - 1, page) && n - 1 < terms.len() && stripped(
            terms[n - 1],
            prefix,
        ) is Some {
            rest.push(stripped(terms[n - 1], prefix).unwrap())
        } else {
            rest
        }
    }
}

/// The URIs of the resources on a page, in dictionary ID order.
pub fn resources_on_page(dict: &Dictionary, rmap: &ResourceMap, page_id: u32) -> (r: Vec<String>)
    ensures
        r@.map_values(|s: String| s@) == selected_terms(
            dict@,
            rmap@,
            Some(page_id),
            rmap@.len() as int,
        ),
{
    let n = rmap.len();
    let mut out: Vec<String> = Vec::new();
    let mut i: usize = 0;
    while i < n
        invariant
            n == rmap@.len(),
            n <= u32::MAX,
            i <= n,
            out@.map_values(|s: String| s@) == selected_terms(dict@, rmap@, Some(page_id), i as int),
        decreases n - i,
    {
        if rmap.page_for(i as u32) == Some(page_id) {
            match dict.resolve(i as u32) {
                Some(term) => {
                    let ghost before = out@;
                    out.push(term.to_string());
                    proof {
                        assert(out@.map_values(|s: String| s@) =~= before.map_values(
                            |s: String| s@,
                        ).push(term@));
                    }
                },
                None => {},
            }
        }
        i = i + 1;
    }
    out
}

/// The bare identifiers of the selected resources, in dictionary ID order.
fn collect_ids(dict: &Dictionary, rmap: &ResourceMap, base_uri: &str, page: Option<u32>) -> (r: Vec<
    String,
>)
    ensures
        r@.map_values(|s: String| s@) == selected_ids(
            dict@,
            rmap@,
            base_uri@ + "resource/"@,
            page,
            dict@.len() as int,
        ),
{
    let prefix = resource_prefix(base_uri);
    let n = dict.len();
    let mut out: Vec<String> = Vec::new();
    let mut i: usize = 0;
    while i < n
        invariant
            n == dict@.len(),
            n <= u32::MAX,
            i <= n,
            prefix@ == base_uri@ + "resource/"@,
            out@.map_values(|s: String| s@) == selected_ids(dict@, rmap@, prefix@, page, i as int),
        decreases n - i,
    {
        let id = i as u32;
        let wanted = match page {
            Some(p) => rmap.page_for(id) == Some(p),
            None => rmap.is_resource(id),
        };
        if wanted {
            match dict.resolve(id) {
                Some(term) => {
                    match strip_prefix(term, prefix.as_str()) {
                        Some(rid) => {
                            let ghost before = out@;
                            out.push(rid.to_string());
                            proof {
                                assert(out@.map_values(|s: String| s@) =~= before.map_values(
                                    |s: String| s@,
                                ).push(rid@));
                            }
                        },
                        None => {},
                    }
                },
                None => {},
            }
        }
        i = i + 1;
    }
    out
}

/// The bare identifiers of all resources in the index, in dictionary ID order.
pub fn list_resource_ids(dict: &Dictionary, rmap: &ResourceMap, base_uri: &str) -> (r: Vec<String>)
    ensures
        r@.map_values(|s: String| s@) == selected_ids(
            dict@,
            rmap@,
            base_uri@ + "resource/"@,
            None,
            dict@.len() as int,
        ),
{
    collect_ids(dict, rmap, base_uri, None)
}

/// The bare identifiers of the resources assigned to a page, in dictionary ID
/// order.
pub fn resources_for_page(dict: &Dictionary, rmap: &ResourceMap, base_uri: &str, page_id: u32) -> (r:
    Vec<String>)
    ensures
        r@.map_values(|s: String| s@) == selected_ids(
            dict@,
            rmap@,
            base_uri@ + "resource/"@,
            Some(page_id),
            dict@.len() as int,
        ),
{
    collect_ids(dict, rmap, base_uri, Some(page_id))
}

/// The bare identifiers of the terms of `ids` that are resource URIs, in the
/// order of `ids`.
pub open spec fn ids_stripped(terms: Seq<Seq<char>>, prefix: Seq<char>, ids: Seq<u32>) -> Seq<
    Seq<char>,
>
    decreases ids.len(),
{
    if ids.len() == 0 {
        Seq::empty()
    } else {
        let rest = ids_stripped(terms, prefix, ids.drop_last());
        let id = ids.last() as int;
        if id < terms.len() && stripped(terms[id], prefix) is Some {
            rest.push(stripped(terms[id], prefix).unwrap())
        } else {
            rest
        }
    }
}

/// Dictionary IDs to bare resource identifiers; IDs that are not resource URIs
/// are left out.
pub fn dict_ids_to_resource_ids(dict: &Dictionary, base_uri: &str, ids: &[u32]) -> (r: Vec<String>)
    ensures
        r@.map_values(|s: String| s@) == ids_stripped(dict@, base_uri@ + "resource/"@, ids@),
{
    let prefix = resource_prefix(base_uri);
    let mut out: Vec<String> = Vec::new();
    let mut k: usize = 0;
    while k < ids.len()
        invariant
            k <= ids@.len(),
            prefix@ == base_uri@ + "resource/"@,
            out@.map_values(|s: String| s@) == ids_stripped(dict@, prefix@, ids@.take(k as int)),
        decreases ids@.len() - k,
    {
        proof {
            assert(ids@.take(k + 1).drop_last() =~= ids@.take(k as int));
        }
        match dict.resolve(ids[k]) {
            Some(term) => {
                match strip_prefix(term, prefix.as_str()) {
                    Some(rid) => {
                        let ghost before = out@;
                        out.push(rid.to_string());
                        proof {
                            assert(out@.map_values(|s: String| s@) =~= before.map_values(
                                |s: String| s@,
                            ).push(rid@));
                        }
                    },
                    None => {},
                }
            },
            None => {},
        }
        k = k + 1;
    }
    proof {
        assert(ids@.take(ids@.len() as int) =~= ids@);
    }
    out
}

/// What follows the first of `prefixes` that `uri` starts with.
pub open spec fn first_stripped(prefixes: Seq<Seq<char>>, uri: Seq<char>) -> Option<Seq<char>>
    decreases prefixes.len(),
{
    if prefixes.len() == 0 {
        None
    } else {
        match stripped(uri, prefixes[0]) {
            Some(r) => Some(r),
            None => first_stripped(prefixes.drop_first(), uri),
        }
    }
}

/// The resource prefixes of the layers' base URIs.
pub open spec fn layer_prefixes(base_uris: Seq<Seq<char>>) -> Seq<Seq<char>> {
    base_uris.map_values(|b: Seq<char>| b + "resource/"@)
}

/// The bare identifiers of the URIs that start with a resource prefix of one
/// of the layers, in order.
pub open spec fn uris_stripped(prefixes: Seq<Seq<char>>, uris: Seq<Seq<char>>) -> Seq<Seq<char>>
    decreases uris.len(),
{
    if uris.len() == 0 {
        Seq::empty()
    } else {
        let rest = uris_stripped(prefixes, uris.drop_last());
        match first_stripped(prefixes, uris.last()) {
            Some(r) => rest.push(r),
            None => rest,
        }
    }
}

/// Strip the first prefix of `prefixes[from..]` that `uri` starts with.
fn strip_first(prefixes: &Vec<String>, uri: &str) -> (r: Option<String>)
    ensures
        r matches Some(s) ==> first_stripped(prefixes@.map_values(|p: String| p@), uri@) == Some(
            s@,
        ),
        r is None ==> first_stripped(prefixes@.map_values(|p: String| p@), uri@) is None,
{
    let ghost ps = prefixes@.map_values(|p: String| p@);
    assert(ps.subrange(0, ps.len() as int) =~= ps);
    let mut j: usize = 0;
    while j < prefixes.len()
        invariant
            j <= prefixes@.len(),
            ps == prefixes@.map_values(|p: String| p@),
            first_stripped(ps, uri@) == first_stripped(ps.subrange(j as int, ps.len() as int), uri@),
        decreases prefixes@.len() - j,
    {
        let ghost tail = ps.subrange(j as int, ps.len() as int);
        proof {
            assert(tail[0] == prefixes@[j as int]@);
            assert(tail.drop_first() =~= ps.subrange(j + 1, ps.len() as int));
        }
        match strip_prefix(uri, prefixes[j].as_str()) {
            Some(rid) => {
                return Some(rid.to_string());
            },
            None => {},
        }
        j = j + 1;
    }
    None
}

/// Full URIs to bare resource identifiers, trying the resource prefix of each
/// layer's base URI in turn; URIs that match none are left out.
pub fn uris_to_resource_ids(base_uris: &[String], uris: &[String]) -> (r: Vec<String>)
    ensures
        r@.map_values(|s: String| s@) == uris_stripped(
            layer_prefixes(base_uris@.map_values(|b: String| b@)),
            uris@.map_values(|u: String| u@),
        ),
{
    let ghost bv = base_uris@.map_values(|b: String| b@);
    let mut prefixes: Vec<String> = Vec::new();
    let mut j: usize = 0;
    while j < base_uris.len()
        invariant
            j <= base_uris@.len(),
            bv == base_uris@.map_values(|b: String| b@),
            prefixes@.map_values(|p: String| p@) == layer_prefixes(bv.take(j as int)),
        decreases base_uris@.len() - j,
    {
        let p = resource_prefix(base_uris[j].as_str());
        let ghost before = prefixes@;
        prefixes.push(p);
        proof {
            assert(bv[j as int] == base_uris@[j as int]@);
            assert(prefixes@.map_values(|q: String| q@) =~= before.map_values(|q: String| q@).push(
                p@,
            ));
            assert(layer_prefixes(bv.take(j + 1)) =~= layer_prefixes(bv.take(j as int)).push(
                bv[j as int] + "resource/"@,
            ));
        }
        j = j + 1;
    }
    proof {
        assert(bv.take(bv.len() as int) =~= bv);
    }
    let ghost ps = layer_prefixes(bv);
    let ghost uv = uris@.map_values(|u: String| u@);
    let mut out: Vec<String> = Vec::new();
    let mut k: usize = 0;
    while k < uris.len()
        invariant
            k <= uris@.len(),
            uv == uris@.map_values(|u: String| u@),
            prefixes@.map_values(|p: String| p@) == ps,
            out@.map_values(|s: String| s@) == uris_stripped(ps, uv.take(k as int)),
        decreases uris@.len() - k,
    {
        proof {
            assert(uv.take(k + 1).drop_last() =~= uv.take(k as int));
        }
        match strip_first(&prefixes, uris[k].as_str()) {
            Some(rid) => {
                let ghost before = out@;
                out.push(rid);
                proof {
                    assert(out@.map_values(|s: String| s@) =~= before.map_values(|s: String| s@).push(
                        rid@,
                    ));
                }
            },
            None => {},
        }
        k = k + 1;
    }
    proof {
        assert(uv.take(uv.len() as int) =~= uv);
    }
    out
}

/// The page of the resource whose URI is `uri`, when the dictionary holds it
/// and the map places it on a page.
pub open spec fn page_of_term(terms: Seq<Seq<char>>, pages: Seq<u16>, uri: Seq<char>) -> Option<u32> {
    if exists|i: int| 0 <= i < terms.len() && terms[i] == uri {
        let i = choose|i: int| 0 <= i < terms.len() && terms[i] == uri;
        if i < pages.len() && pages[i] != NOT_A_RESOURCE {
            Some(pages[i] as u32)
        } else {
            None
        }
    } else {
        None
    }
}

/// The page of a resource given by its bare identifier.
pub fn page_for_resource(dict: &Dictionary, rmap: &ResourceMap, base_uri: &str, resource_id: &str) -> (r:
    Option<u32>)
    ensures
        r == page_of_term(dict@, rmap@, base_uri@ + "resource/"@ + resource_id@),
{
    let uri = resource_uri(base_uri, resource_id);
    let _n = dict.len();
    match dict.lookup(uri.as_str()) {
        Some(id) => {
            proof {
                let i = choose|i: int| 0 <= i < dict@.len() && dict@[i] == uri@;
                assert(distinct_terms(dict@));
                if i != id {
                    if i < id {
                        assert(dict@[i] != dict@[id as int]);
                    } else {
                        assert(dict@[id as int] != dict@[i]);
                    }
                }
            }
            rmap.page_for(id)
        },
        None => {
            proof {
                if exists|i: int| 0 <= i < dict@.len() && dict@[i] == uri@ {
                    let i = choose|i: int| 0 <= i < dict@.len() && dict@[i] == uri@;
                    assert(dict@.contains(uri@));
                }
            }
            None
        },
    }
}

} // verus!
