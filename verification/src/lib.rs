//! A replicated sequence: a conflict-free replicated data type for ordered
//! collections of small elements. Replicas apply local edits (insert at an
//! index, delete at an index) and exchange the update records those edits
//! emit; replicas that have observed the same updates hold equal documents.

pub mod cvrdt;
pub mod small_vec;
pub mod small_vector;
pub mod spans;
pub mod structure;

pub use small_vector::Vector as CvrdtVector;
