//! Locating configuration and runtime assets, merging layered configuration
//! documents, and annotating definitions in source text with marker comments.
use vstd::prelude::*;

pub mod config;
pub mod grammar;
pub mod locate;
pub mod patch;
pub mod paths;

use crate::locate::{locate, sites_of, well_formed, SyntaxNode};
use crate::patch::{apply, lemma_sort_sites, patched, site_views};

verus! {

/// The text with a marker line, made of the comment token and the marker
/// payload, above every definition that the tree holds.
pub fn annotate(text: &Vec<u8>, root: &SyntaxNode, comment_token: &Vec<u8>) -> (r: Vec<u8>)
    requires
        well_formed(*root, text@.len() as int),
    ensures
        r@ == patched(text@, sites_of(text@, *root, 0, false), comment_token@),
{
    let sites = locate(root, text);
    proof {
        lemma_sort_sites(site_views(sites@), text@.len() as int);
    }
    match apply(text, &sites, comment_token) {
        Ok(out) => out,
        Err(_) => {
            // every anchor lies within the text, so this arm is never taken
            proof {
                assert(false);
            }
            Vec::new()
        },
    }
}

} // verus!
