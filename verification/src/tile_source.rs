//! Locating a resource's tile blob: dictionary and resource map give the
//! resource's dictionary ID and page, the page's tile content file gives the
//! byte range of its blob.

use vstd::prelude::*;
use std::collections::HashMap;
use crate::codec::get_le32;
use crate::dictionary::Dictionary;
use crate::resource_map::{ResourceMap, NOT_A_RESOURCE};
use crate::tile_content_file::{
    parse_tile_content_header, spec_parse_tile_header, sorted_by_subject, tile_prelude_ok,
    TileContentEntry,
};
use crate::uri::resource_uri;

verus! {

/// Why a resource's tiles cannot be loaded.
#[derive(Debug)]
pub enum TileLoadError {
    ResourceNotFound { resource_id: String },
    LoadError(String),
}

/// `r` is a `ResourceNotFound` error for `resource_id`.
pub open spec fn not_found(r: TileLoadError, resource_id: Seq<char>) -> bool {
    r matches TileLoadError::ResourceNotFound { resource_id: id } && id@ == resource_id
}

/// The dictionary ID and page of a resource, given the dictionary's terms
/// and the resource map's entries: its URI must be interned and mapped to a
/// page.
pub open spec fn spec_resolve(
    terms: Seq<Seq<char>>,
    pages: Seq<u16>,
    base_uri: Seq<char>,
    resource_id: Seq<char>,
) -> Option<(u32, u32)> {
    let uri = base_uri + "resource/"@ + resource_id;
    if terms.contains(uri) {
        let id = choose|id: int| 0 <= id < terms.len() && terms[id] == uri;
        if id < pages.len() && pages[id] != NOT_A_RESOURCE {
            Some((id as u32, pages[id] as u32))
        } else {
            None
        }
    } else {
        None
    }
}

/// Resolve a resource id to its dictionary ID and page.
pub fn resolve_resource(
    dictionary: &Dictionary,
    resource_map: &ResourceMap,
    base_uri: &str,
    resource_id: &str,
) -> (r: Result<(u32, u32), TileLoadError>)
    ensures
        match r {
            Ok((id, page)) => {
                let uri = base_uri@ + "resource/"@ + resource_id@;
                &&& (id as int) < dictionary@.len()
                &&& dictionary@[id as int] == uri
                &&& (id as int) < resource_map@.len()
                &&& resource_map@[id as int] != NOT_A_RESOURCE
                &&& page == resource_map@[id as int]
            },
            Err(e) => not_found(e, resource_id@) && (!dictionary@.contains(
                base_uri@ + "resource/"@ + resource_id@,
            ) || exists|id: int|
                0 <= id < dictionary@.len() && dictionary@[id] == base_uri@ + "resource/"@
                    + resource_id@ && !(id < resource_map@.len() && resource_map@[id]
                    != NOT_A_RESOURCE)),
        },
{
    let uri = resource_uri(base_uri, resource_id);
    let id = match dictionary.lookup(uri.as_str()) {
        Some(id) => id,
        None => {
            return Err(TileLoadError::ResourceNotFound { resource_id: resource_id.to_owned() });
        },
    };
    match resource_map.page_for(id) {
        Some(page) => Ok((id, page)),
        None => Err(TileLoadError::ResourceNotFound { resource_id: resource_id.to_owned() }),
    }
}

/// `e` is the error `tile_blob_range` gives for subject `dict_id` of the
/// tile file `bytes`.
pub open spec fn blob_error(bytes: Seq<u8>, dict_id: u32, resource_id: Seq<char>, e: TileLoadError) -> bool {
    match e {
        TileLoadError::ResourceNotFound { resource_id: id } => id@ == resource_id && exists|
            es: Seq<TileContentEntry>,
        |
            spec_parse_tile_header(bytes) == Some(es) && (sorted_by_subject(es) ==> forall|i: int|
                0 <= i < es.len() ==> es[i].subject_id != dict_id),
        TileLoadError::LoadError(_) => spec_parse_tile_header(bytes) is None || exists|
            es: Seq<TileContentEntry>,
            i: int,
        |
            spec_parse_tile_header(bytes) == Some(es) && 0 <= i < es.len() && es[i].subject_id
                == dict_id && es[i].blob_offset + es[i].blob_size > bytes.len(),
    }
}

/// The byte range `[start, end)` of the blob of subject `dict_id` in a tile
/// content file.
///
/// Fails with `LoadError` when the header does not parse or the blob runs
/// past the end of the file, and with `ResourceNotFound` when the header has
/// no entry for the subject.
pub fn tile_blob_range(file_bytes: &[u8], dict_id: u32, resource_id: &str) -> (r: Result<
    (usize, usize),
    TileLoadError,
>)
    requires
        tile_prelude_ok(file_bytes@) ==> 9 + 12 * get_le32(file_bytes@, 5) <= usize::MAX,
    ensures
        match r {
            Ok((start, end)) => exists|es: Seq<TileContentEntry>, i: int|
                spec_parse_tile_header(file_bytes@) == Some(es) && 0 <= i < es.len()
                    && es[i].subject_id == dict_id && start == es[i].blob_offset && end
                    == es[i].blob_offset + es[i].blob_size && end <= file_bytes@.len(),
            Err(e) => blob_error(file_bytes@, dict_id, resource_id@, e),
        },
{
    let header = match parse_tile_content_header(file_bytes) {
        Ok(h) => h,
        Err(e) => {
            return Err(TileLoadError::LoadError(e));
        },
    };
    let entry = match header.entry_for_subject(dict_id) {
        Some(e) => e,
        None => {
            return Err(TileLoadError::ResourceNotFound { resource_id: resource_id.to_owned() });
        },
    };
    let start = entry.blob_offset as usize;
    let size = entry.blob_size as usize;
    if start > file_bytes.len() || size > file_bytes.len() - start {
        return Err(TileLoadError::LoadError("Tile blob extends beyond file".to_owned()));
    }
    Ok((start, start + size))
}

/// Tile files held in memory, by page, with the dictionary and resource map
/// that locate a resource's page.
pub struct TileStore {
    base_uri: String,
    dictionary: Dictionary,
    resource_map: ResourceMap,
    tile_files: HashMap<u32, Vec<u8>>,
}

impl TileStore {
    /// The tile files, by page.
    pub closed spec fn files(&self) -> Map<u32, Seq<u8>> {
        self.tile_files@.map_values(|v: Vec<u8>| v@)
    }

    pub closed spec fn spec_base_uri(&self) -> Seq<char> {
        self.base_uri@
    }

    pub closed spec fn spec_dictionary(&self) -> Seq<Seq<char>> {
        self.dictionary@
    }

    pub closed spec fn spec_resource_map(&self) -> Seq<u16> {
        self.resource_map@
    }

    /// A store with the given tile files.
    pub fn new(
        base_uri: String,
        dictionary: Dictionary,
        resource_map: ResourceMap,
        tile_files: HashMap<u32, Vec<u8>>,
    ) -> (r: Self)
        ensures
            r.spec_base_uri() == base_uri@,
            r.spec_dictionary() == dictionary@,
            r.spec_resource_map() == resource_map@,
            r.files() == tile_files@.map_values(|v: Vec<u8>| v@),
    {
        TileStore { base_uri, dictionary, resource_map, tile_files }
    }

    /// Insert (or replace) the tile file of a page.
    pub fn insert_tile_file(&mut self, page_id: u32, bytes: Vec<u8>)
        ensures
            final(self).files() == old(self).files().insert(page_id, bytes@),
            final(self).spec_base_uri() == old(self).spec_base_uri(),
            final(self).spec_dictionary() == old(self).spec_dictionary(),
            final(self).spec_resource_map() == old(self).spec_resource_map(),
    {
        let ghost bv = bytes@;
        self.tile_files.insert(page_id, bytes);
        proof {
            assert(self.files() =~= old(self).files().insert(page_id, bv));
        }
    }

    /// Whether the tile file of a page is present.
    pub fn has_tile_file(&self, page_id: u32) -> (r: bool)
        ensures
            r == self.files().contains_key(page_id),
    {
        self.tile_files.contains_key(&page_id)
    }

    pub fn dictionary(&self) -> (r: &Dictionary)
        ensures
            r@ == self.spec_dictionary(),
    {
        &self.dictionary
    }

    pub fn resource_map(&self) -> (r: &ResourceMap)
        ensures
            r@ == self.spec_resource_map(),
    {
        &self.resource_map
    }

    pub fn base_uri(&self) -> (r: &str)
        ensures
            r@ == self.spec_base_uri(),
    {
        self.base_uri.as_str()
    }

    /// The tile blob of a resource: resolve it to its dictionary ID and page,
    /// take the page's tile file, and cut out the resource's blob. A page
    /// whose file is absent fails with `ResourceNotFound`.
    pub fn locate_tiles(&self, resource_id: &str) -> (r: Result<&[u8], TileLoadError>)
        requires
            forall|p: u32| #[trigger] self.files().contains_key(p) ==> (tile_prelude_ok(self.files()[p]) ==> 9 + 12 * get_le32(self.files()[p], 5) <= usize::MAX),
        ensures
            match r {
                Ok(blob) => exists|id: u32, page: u32, es: Seq<TileContentEntry>, i: int|
                    spec_resolve(
                        self.spec_dictionary(),
                        self.spec_resource_map(),
                        self.spec_base_uri(),
                        resource_id@,
                    ) == Some((id, page)) && self.files().contains_key(page)
                        && spec_parse_tile_header(self.files()[page]) == Some(es) && 0 <= i < es.len()
                        && es[i].subject_id == id && blob@ == self.files()[page].subrange(
                        es[i].blob_offset as int,
                        es[i].blob_offset + es[i].blob_size,
                    ),
                Err(e) => match spec_resolve(
                    self.spec_dictionary(),
                    self.spec_resource_map(),
                    self.spec_base_uri(),
                    resource_id@,
                ) {
                    None => not_found(e, resource_id@),
                    Some((id, page)) => if self.files().contains_key(page) {
                        blob_error(self.files()[page], id, resource_id@, e)
                    } else {
                        not_found(e, resource_id@)
                    },
                },
            },
    {
        let _ = self.dictionary.len();
        let (id, page) = match resolve_resource(
            &self.dictionary,
            &self.resource_map,
            self.base_uri.as_str(),
            resource_id,
        ) {
            Ok(p) => p,
            Err(e) => {
                proof {
                    let uri = self.base_uri@ + "resource/"@ + resource_id@;
                    let d = self.dictionary@;
                    if d.contains(uri) {
                        let cid = choose|cid: int| 0 <= cid < d.len() && d[cid] == uri;
                        let w = choose|w: int|
                            0 <= w < d.len() && d[w] == uri && !(w < self.resource_map@.len()
                                && self.resource_map@[w] != NOT_A_RESOURCE);
                        assert(cid == w);
                    }
                }
                return Err(e);
            },
        };
        proof {
            let uri = self.base_uri@ + "resource/"@ + resource_id@;
            let d = self.dictionary@;
            assert(d.contains(uri));
            let cid = choose|cid: int| 0 <= cid < d.len() && d[cid] == uri;
            assert(cid == id as int);
        }
        let file = match self.tile_files.get(&page) {
            Some(f) => f,
            None => {
                proof {
                    assert(!self.files().contains_key(page));
                }
                return Err(TileLoadError::ResourceNotFound { resource_id: resource_id.to_owned() });
            },
        };
        proof {
            assert(self.tile_files@.contains_key(page));
            assert(self.files().contains_key(page));
            assert(self.files()[page] == file@);
        }
        let (start, end) = match tile_blob_range(file.as_slice(), id, resource_id) {
            Ok(r) => r,
            Err(e) => {
                return Err(e);
            },
        };
        Ok(vstd::slice::slice_subrange(file.as_slice(), start, end))
    }
}

} // verus!
