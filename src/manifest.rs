use vstd::prelude::*;

use crate::assoc::{lemma_pairs_map_absent, lemma_pairs_map_last, pairs_map};
use crate::digest::Digest;

verus! {

/// An application category that a package can serve as the handler of.
#[derive(Clone, Copy, Debug, PartialEq, Eq, Structural, Hash, PartialOrd, Ord)]
pub enum Target {
    Comic,
}

/// How the blobs of a package map to what it serves.
#[derive(Clone, Debug, PartialEq)]
pub enum Manifest {
    /// A web-style bundle: each servable path with the hash of its blob.
    /// A later pair for the same path replaces an earlier one.
    App { target: Target, paths: Vec<(String, Digest)> },
    /// An ordered image set: a page's number is its position.
    Comic { pages: Vec<Digest> },
}

/// The pairs of a path table, as path text and hash bytes.
pub open spec fn path_entries(paths: Seq<(String, Digest)>) -> Seq<(Seq<char>, Seq<u8>)> {
    paths.map_values(|e: (String, Digest)| (e.0@, e.1@))
}

/// The mapping from path text to hash bytes that a path table denotes.
pub open spec fn path_map(paths: Seq<(String, Digest)>) -> Map<Seq<char>, Seq<u8>> {
    pairs_map(path_entries(paths))
}

/// Finds the hash that a path table gives for `path`.
pub fn lookup_path(paths: &Vec<(String, Digest)>, path: &str) -> (r: Option<Digest>)
    ensures
        match r {
            Some(h) => path_map(paths@).contains_key(path@) && path_map(paths@)[path@] == h@,
            None => !path_map(paths@).contains_key(path@),
        },
{
    let key = path.to_owned();
    let ghost s = path_entries(paths@);
    let mut i: usize = paths.len();
    while i > 0
        invariant
            0 <= i <= paths.len(),
            key@ == path@,
            s == path_entries(paths@),
            forall|j: int| i <= j < s.len() ==> (#[trigger] s[j]).0 != path@,
        decreases i,
    {
        i = i - 1;
        if paths[i].0 == key {
            proof {
                lemma_pairs_map_last(s, path@, i as int);
            }
            return Some(paths[i].1);
        }
    }
    proof {
        lemma_pairs_map_absent(s, path@);
    }
    None
}

} // verus!
