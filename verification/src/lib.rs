//! Persistent homology for agent behaviour: the combinatorial and linear-algebra
//! core (boundary matrices over GF(2), simplex enumeration, component merging,
//! matching and archetype decisions), with machine-checked contracts.

pub mod gf2;
pub mod boundary;
pub mod combinatorics;
pub mod complex;
pub mod duality;
pub mod homology;
pub mod layout;
pub mod matching;
pub mod archetype;
pub mod reduction;

pub use archetype::{classify_agent, AgentArchetype, BarcodeSummary};
pub use boundary::BoundaryMatrix;
pub use combinatorics::{combinations, VietorisRips};
pub use complex::FiltrationOrder;
pub use homology::{compute_barcode_shapes, merge_components, BarShape, BarcodeShape};
pub use layout::bar_line;
pub use matching::{bottleneck_matching, BottleneckMatching};
