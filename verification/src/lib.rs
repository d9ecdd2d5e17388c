//! Exact predicates, polynomial algebra and combinatorial kernels of a
//! B-rep geometry kernel.

pub mod frac;
pub mod rational;
pub mod exact;
pub mod branch_topology;
pub mod error;
pub mod id;
pub mod snap;
pub mod poly;
pub mod nurbs_bridge;
pub mod line;
pub mod sums;
pub mod evaluation;
pub mod substitution;
pub mod implicit;
pub mod cylinder_torus;
pub mod cone_torus;
