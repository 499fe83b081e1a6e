use vstd::prelude::*;

use crate::assoc::lemma_pairs_map_value;
use crate::container::{blob_map, find_blob, Container};
use crate::digest::Digest;
use crate::manifest::{lookup_path, path_entries, path_map, Manifest};
use crate::page::{lemma_page_number_nonneg, page_number, parse_page};

verus! {

/// The MIME type that mime_guess infers from a path's extension.
pub uninterp spec fn mime_of(path: Seq<char>) -> Seq<char>;

/// Relies on `mime_guess::from_path(..).first_or_octet_stream()`: the first
/// type known for the path's extension, or `application/octet-stream`; it
/// depends on the path text alone.
#[verifier::external_body]
fn guess_mime(path: &str) -> (r: String)
    ensures
        r@ == mime_of(path@),
{
    mime_guess::from_path(path).first_or_octet_stream().to_string()
}

/// A manifest with the blobs it serves; `hash` is the manifest blob's digest.
#[derive(Clone, Debug, PartialEq)]
pub struct Package {
    pub hash: Digest,
    pub manifest: Manifest,
    pub files: Vec<(Digest, Vec<u8>)>,
}

/// Whether the manifest names digest `h`, in a path pair or as a page.
pub open spec fn names(m: Manifest, h: Seq<u8>) -> bool {
    match m {
        Manifest::App { paths, .. } => exists|j: int|
            0 <= j < paths@.len() && (#[trigger] paths@[j]).1@ == h,
        Manifest::Comic { pages } => exists|j: int|
            0 <= j < pages@.len() && (#[trigger] pages@[j])@ == h,
    }
}

/// Whether every digest that `m` names has a blob in `files`.
pub open spec fn complete(m: Manifest, files: Seq<(Digest, Vec<u8>)>) -> bool {
    forall|h: Seq<u8>| #[trigger] names(m, h) ==> blob_map(files).contains_key(h)
}

/// The MIME type of every comic page.
pub open spec fn jpeg() -> Seq<char> {
    "image/jpeg"@
}

/// The digest that a manifest gives for a logical path.
pub open spec fn resolve(m: Manifest, path: Seq<char>) -> Option<Seq<u8>> {
    match m {
        Manifest::App { paths, .. } => if path_map(paths@).contains_key(path) {
            Some(path_map(paths@)[path])
        } else {
            None
        },
        Manifest::Comic { pages } => match page_number(path) {
            Some(k) => if 0 <= k < pages@.len() {
                Some(pages@[k]@)
            } else {
                None
            },
            None => None,
        },
    }
}

/// When every blob is stored under the digest of its own bytes, the bytes
/// served for a path are bytes whose digest is the one the manifest gives
/// for that path.
pub proof fn lemma_content_addressed(
    p: Package,
    path: Seq<char>,
    digest_of: spec_fn(Seq<u8>) -> Seq<u8>,
)
    requires
        p.wf(),
        forall|h: Seq<u8>| #[trigger]
            blob_map(p.files@).contains_key(h) ==> digest_of(blob_map(p.files@)[h]) == h,
    ensures
        p.served(path) matches Some(x) ==> resolve(p.manifest, path) == Some(digest_of(x.1)),
{
    lemma_page_number_nonneg(path);
    match p.manifest {
        Manifest::App { paths, .. } => {
            if path_map(paths@).contains_key(path) {
                let j = lemma_pairs_map_value(path_entries(paths@), path);
                assert(path_entries(paths@)[j] == (paths@[j].0@, paths@[j].1@));
                assert(names(p.manifest, path_map(paths@)[path]));
            }
        },
        Manifest::Comic { pages } => {
            if let Some(k) = page_number(path) {
                if k < pages@.len() {
                    assert(names(p.manifest, pages@[k]@));
                }
            }
        },
    }
}

/// Whether every path pair's digest has a blob in `files`.
fn paths_present(files: &Vec<(Digest, Vec<u8>)>, paths: &Vec<(String, Digest)>) -> (r: bool)
    ensures
        r == forall|j: int|
            0 <= j < paths@.len() ==> blob_map(files@).contains_key((#[trigger] paths@[j]).1@),
{
    let mut i: usize = 0;
    while i < paths.len()
        invariant
            0 <= i <= paths.len(),
            forall|j: int|
                0 <= j < i ==> blob_map(files@).contains_key((#[trigger] paths@[j]).1@),
        decreases paths.len() - i,
    {
        if find_blob(files, &paths[i].1).is_none() {
            return false;
        }
        i = i + 1;
    }
    true
}

/// Whether every page's digest has a blob in `files`.
fn pages_present(files: &Vec<(Digest, Vec<u8>)>, pages: &Vec<Digest>) -> (r: bool)
    ensures
        r == forall|j: int|
            0 <= j < pages@.len() ==> blob_map(files@).contains_key((#[trigger] pages@[j])@),
{
    let mut i: usize = 0;
    while i < pages.len()
        invariant
            0 <= i <= pages.len(),
            forall|j: int| 0 <= j < i ==> blob_map(files@).contains_key((#[trigger] pages@[j])@),
        decreases pages.len() - i,
    {
        if find_blob(files, &pages[i]).is_none() {
            return false;
        }
        i = i + 1;
    }
    true
}

impl Package {
    /// Every digest that the manifest names has a blob.
    pub open spec fn wf(&self) -> bool {
        complete(self.manifest, self.files@)
    }

    /// What `get(path)` serves: the MIME type and the bytes, or nothing.
    pub open spec fn served(&self, path: Seq<char>) -> Option<(Seq<char>, Seq<u8>)> {
        match self.manifest {
            Manifest::App { paths, .. } => if path_map(paths@).contains_key(path) {
                Some((mime_of(path), blob_map(self.files@)[path_map(paths@)[path]]))
            } else {
                None
            },
            Manifest::Comic { pages } => match page_number(path) {
                Some(k) => if k < pages@.len() {
                    Some((jpeg(), blob_map(self.files@)[pages@[k]@]))
                } else {
                    None
                },
                None => None,
            },
        }
    }

    /// Builds the package of a container whose manifest blob decoded to
    /// `manifest`; its identity is the manifest blob's digest.
    pub fn load(container: Container, manifest: Manifest) -> (r: Package)
        ensures
            r.hash == container.manifest,
            r.manifest == manifest,
            r.files == container.files,
    {
        Package { hash: container.manifest, manifest, files: container.files }
    }

    /// Whether every digest that the manifest names has a blob, so that
    /// `get` may be called.
    pub fn is_complete(&self) -> (r: bool)
        ensures
            r == self.wf(),
    {
        match &self.manifest {
            Manifest::App { paths, .. } => {
                let ok = paths_present(&self.files, paths);
                proof {
                    if !ok {
                        let j = choose|j: int|
                            0 <= j < paths@.len() && !blob_map(self.files@).contains_key(
                                (#[trigger] paths@[j]).1@,
                            );
                        assert(names(self.manifest, paths@[j].1@));
                    } else {
                        assert forall|h: Seq<u8>| #[trigger] names(self.manifest, h) implies blob_map(
                            self.files@,
                        ).contains_key(h) by {}
                    }
                }
                ok
            },
            Manifest::Comic { pages } => {
                let ok = pages_present(&self.files, pages);
                proof {
                    if !ok {
                        let j = choose|j: int|
                            0 <= j < pages@.len() && !blob_map(self.files@).contains_key(
                                (#[trigger] pages@[j])@,
                            );
                        assert(names(self.manifest, pages@[j]@));
                    } else {
                        assert forall|h: Seq<u8>| #[trigger] names(self.manifest, h) implies blob_map(
                            self.files@,
                        ).contains_key(h) by {}
                    }
                }
                ok
            },
        }
    }

    /// Resolves a logical path: an exact path of an app, or a page number
    /// of a comic.
    pub fn get(&self, path: &str) -> (r: Option<(String, Vec<u8>)>)
        requires
            self.wf(),
        ensures
            match r {
                Some(x) => self.served(path@) == Some((x.0@, x.1@)),
                None => self.served(path@) is None,
            },
    {
        match &self.manifest {
            Manifest::App { paths, .. } => {
                let h = match lookup_path(paths, path) {
                    Some(h) => h,
                    None => {
                        return None;
                    },
                };
                proof {
                    let j = lemma_pairs_map_value(path_entries(paths@), path@);
                    assert(path_entries(paths@)[j] == (paths@[j].0@, paths@[j].1@));
                    assert(names(self.manifest, h@));
                }
                match find_blob(&self.files, &h) {
                    Some(b) => Some((guess_mime(path), b.clone())),
                    None => None,
                }
            },
            Manifest::Comic { pages } => {
                let k = match parse_page(path, pages.len()) {
                    Some(k) => k,
                    None => {
                        return None;
                    },
                };
                proof {
                    lemma_page_number_nonneg(path@);
                    assert(names(self.manifest, pages@[k as int]@));
                }
                match find_blob(&self.files, &pages[k]) {
                    Some(b) => Some(("image/jpeg".to_owned(), b.clone())),
                    None => None,
                }
            },
        }
    }
}

} // verus!
