//! Domain types: segments, renditions, windows, playlists and cache nodes.
pub mod cache_node;
pub mod playlist;
pub mod rendition;
pub mod segment;
pub mod window;
