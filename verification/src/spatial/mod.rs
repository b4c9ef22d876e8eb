//! Geometries, their text and binary forms, and spatial indexing.

pub mod buffer;
pub mod buffer_laws;
pub mod crs;
pub mod crs_laws;
pub mod distance;
pub mod distance_laws;
pub mod geohash;
pub mod geohash_laws;
pub mod geojson;
pub mod geometry;
pub mod json;
pub mod json_laws;
pub mod plane;
pub mod predicate_laws;
pub mod predicates;
pub mod relation_laws;
pub mod ring_laws;
pub mod rtree;
pub mod rtree_laws;
pub mod wkb;
pub mod wkt;
pub mod wkt_laws;
