//! Integer geometry of a subdivided icosahedral sphere: barycentric grid
//! coordinates on a geodesic triangle, their mesh layout, and the discrete
//! decisions used to locate points, compare chunks and stitch meshes.
pub mod ratio;
pub mod bary_iterative;
pub mod mesh;
pub mod subdivision;
pub mod triangle;
pub mod chunks;
pub mod stitch;
