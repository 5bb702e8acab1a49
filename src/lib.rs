//! Exact-arithmetic core of a photon-mapping renderer: integer vectors and
//! boxes, heaps, a kd-tree for nearest-neighbour queries and its lazy
//! nearest-first stream, bounding volume hierarchies, the path tokens used to
//! replay a ray's path, and the decisions of specular path enumeration.

pub mod binary_heap;
pub mod bounds;
pub mod bvh;
pub mod capped_heap;
pub mod cluster_queue;
pub mod kd_iter;
pub mod kd_tree;
pub mod object;
pub mod ray;
pub mod renderer;
pub mod scalar_key;
pub mod seq_tree;
pub mod triangle;
pub mod vec;
