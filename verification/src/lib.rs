//! Search listings of several torrent sites, reduced to verified text and
//! document processing: extracting titles and magnet links from page bodies,
//! and ranking the rows that a search produced.

pub mod text;

pub mod consts;
pub mod listing;
pub mod html;
pub mod sites;

use vstd::prelude::*;

verus! {

/// Whether a search found any post at all.
#[derive(Debug, Clone, Copy, PartialEq, Eq, Structural)]
pub enum DataStatus {
    Found,
    NotFound,
}

} // verus!
