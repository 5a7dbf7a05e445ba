//! One module per site: what its pages are read for, and how its search
//! results become a listing.

pub mod torrentube;
pub mod ttobogo;
pub mod tshare;
pub mod torrentmobile;
