//! Verified core of a self-adjusting (incremental) computation engine.
mod adjust_heights_heap;
mod bind;
mod closure_fold;
mod cutoff;
mod expert;
mod fold_law;
mod graph;
mod height_adjustment;
pub mod incrsan;
mod invalidity;
mod necessity;
mod node_id;
mod node_state;
mod node_update;
mod observation;
mod observer;
mod public;
mod recompute_heap;
mod sorted_map;
mod stabilise;
mod step;
mod stabilisation_num;
mod symmetric_fold;
mod unordered_fold;
mod values;
mod var;

pub use closure_fold::{unordered_fold_with, ClosureFold, UnorderedFold};
pub use fold_law::{lemma_first_fold_adds_entries, lemma_unordered_fold_tracks_map};
pub use cutoff::Cutoff;
pub use node_state::handle_after_stabilisation;
pub use graph::{Graph, Kind, Node};
pub use node_id::{lemma_node_ids_increase, NodeId};
pub use node_update::{
    lemma_first_delivery_not_a_change, lemma_not_run_when_created, lemma_nothing_after_invalidation, NodeUpdate,
    NodeUpdateDelayed, OnUpdateHandler, Previously,
};
pub use observation::{add_new_observers, unlink_disallowed_observers};
pub use observer::{InternalObserver, ObserverError, ObserverId, ObserverState, SubscriptionToken};
pub use public::{IncrStatus, Invariant, MakeStale, ShouldEmit, Stats, StatsDiff, Update, Value, WeakMap};
pub use height_adjustment::AdjustHeightsError;
pub use recompute_heap::RecomputeHeap;
pub use sorted_map::{fold_items, GenericMap, SortedMap, SymmetricFoldMap, SymmetricMapMap};
pub use stabilisation_num::StabilisationNum;
pub use step::{Recomputed, StepError};
pub use symmetric_fold::{
    lemma_merge_sorted_union, lemma_symmetric_diff_exact, merge_once, symmetric_diff, DiffElement, MergeElement, MergeOnce,
};
pub use unordered_fold::{lemma_cycle_wraps_every_n, make_update_fn_from_inverse, Cycle, UnorderedArrayFold};
pub use adjust_heights_heap::AdjustHeightsHeap;
pub use var::{stabilise_end, Var};
