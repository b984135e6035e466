//! Verified core of a small static file server: URL-path resolution,
//! HTML escaping, directory-listing rendering and the request-routing
//! decisions, each with a contract over sequences of characters.

pub mod text;
pub mod resolve;
pub mod html;
pub mod listing;
pub mod route;
