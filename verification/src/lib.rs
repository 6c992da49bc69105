//! Distributed k-core decomposition of temporal graphs.
//!
//! A temporal graph is fed to the library one snapshot (a batch of edges) at a
//! time. Every node keeps, for each neighbour it has ever seen, one bit per
//! snapshot telling whether the edge was present in it, and an activation
//! function decides, from the most recent bits, whether the neighbour still
//! counts. On top of that "alive" graph the nodes run Montresor's distributed
//! coreness protocol: each node keeps an estimate of its neighbours'
//! coreness and recomputes its own as an h-index of those estimates.

pub mod activation;
pub mod coreness;
pub mod dynamic_montresor;
pub mod completely_new_algorithm;
pub mod sorting;
pub mod measure;
pub mod alive_rounds;
pub mod snapshots;
pub mod edge_list;
pub mod laws;
pub mod coreness_bounds;
pub mod similarity;
pub mod broadcast_laws;
pub mod alive_estimates;
pub mod announcements;
pub mod node_laws;
