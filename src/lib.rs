//! Pairwise dynamic-time-warping distances between two collections of
//! labelled time series.
//!
//! - `grouping`: observation rows `(identifier, value)` become one sequence per
//!   identifier, in row order, and a missing identifier or value is an error.
//! - `warping`: the warping grid `D[i][j]` walked row by row with two rows of
//!   storage, with an explicit marker for unreachable cells. The cell rule is
//!   the caller's, so the values can be of any numeric type.
//! - `pairwise`: the full cross product of distances between two collections,
//!   with pairs that cannot be aligned reported as errors.
mod error;
mod grouping;
mod pairwise;
mod warping;

pub use error::{ComputationError, SchemaError};
pub use grouping::{
    first_incomplete_row, group_ids_unique, group_observations, is_grouping_of,
    reports_first_incomplete_row, row_is_complete, values_for,
};
pub use pairwise::{
    all_pairable, distance_row, first_unpairable, first_unpairable_in_row, is_cross_product,
    is_distance_entry, is_product_pair, lemma_cross_product_complete, lists_pair, names_pair,
    pairable, pairwise_distances, row_pairable,
};
pub use warping::{
    cell_step, grid_row_ok, holds_if_reached, is_warping_grid, keeps_property, keeps_reachable,
    lemma_warping_keeps_property, lemma_warping_symmetric, transposes, warping_distance,
};
