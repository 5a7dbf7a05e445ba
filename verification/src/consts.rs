//! Fixed strings of the sites and of their pages.

use vstd::prelude::*;

verus! {

/// What a magnet lookup gives when a post offers no magnet link.
pub const NO_MAGNET: &'static str = "NO MAGNET";

/// What every magnet link of these sites starts with.
pub const MAGNET_PREFIX: &'static str = "magnet:?xt=urn:btih:";

/// The search address of torrentmobile; the search words follow it.
pub const TORRENTMOBILE_SEARCH_URL: &'static str = "https://torrentmobile15.com/bbs/search.php?stx=";

/// The search address of torrentube; the search words follow it.
pub const TORRENTUBE_SEARCH_URL: &'static str = "https://torrentube.to/search?q=";

/// The search address of tshare; the search words follow it.
pub const TSHARE_SEARCH_URL: &'static str = "https://tshare.org/search?q=";

/// The search address of ttobogo; the search words follow it.
pub const TTOBOGO_SEARCH_URL: &'static str = "https://ttobogo.net/search?skeyword=";

/// The user agent that the page requests announce.
pub const MY_USER_AGENT: &'static str =
    "Mozilla/5.0 (Windows NT 10.0; Win64; x64) AppleWebKit/537.36 (KHTML, like Gecko) Chrome/87.0.4280.88 Safari/537.36";

} // verus!
