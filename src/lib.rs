//! Procedural generation of a planet's surface mesh: geodesic subdivision of
//! an icosahedron, triangle adjacency through canonical edge keys, random
//! region growing into tectonic plates, and fixed-point packing of positions.
//!
//! Floating-point geometry (vertex coordinates, normalisation, conversion to
//! fixed point) is left to the caller: the library works on the mesh's
//! combinatorial structure and on fixed-point coordinates.

pub mod edge_key;
pub mod icosphere;
pub mod packed_vec3;
pub mod parity_set;
pub mod planet;
mod random;
pub mod regions;
pub mod surface;
mod surface_step;
pub mod tectonic_plates;

pub use edge_key::edge_key;
pub use icosphere::{
    subdivided_icosahedron, Icosphere, BASE_VERTEX_COUNT, MAX_MESH_SUBDIVISIONS, MAX_SUBDIVISIONS,
};
pub use packed_vec3::PackedVec3;
pub use parity_set::ParitySet;
pub use planet::{build_planet, planet_vertices, PlanetVertex};
pub use regions::{create_regions, Region};
pub use tectonic_plates::{
    cluster_regions, first_bordering_plate, ClusterError, TectonicPlate,
    TectonicPlateClassification,
};
