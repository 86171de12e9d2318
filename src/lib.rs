//! Two-dimensional stock cutting: lays rectangular demand pieces out on
//! rectangular stock pieces, with guillotine or free (nested) cuts, a blade
//! kerf, grain directions and limited stock quantities.
//!
//! The placement engine, the genetic operators, the input normalisation and
//! the driver's decisions are verified; scoring a layout by its
//! floating-point fitness, and ranking units by it, is left to the caller.

mod bin;
mod geometry;
mod guillotine;
mod lists;
mod maxrects;
mod optimizer;
mod population;
mod random;
mod unit;

pub use bin::Bin;
pub use geometry::{
    CutPiece, CutPieceWithId, Error, Fit, PatternDirection, Rect, ResultCutPiece,
    ResultStockPiece, StockPiece, UsedCutPiece, MAX_DIM, no_fit_for_cut_piece_error,
};
pub use guillotine::{
    score_by_heuristic, FreeRectChoiceHeuristic, GuillotineBin, RotateCutPieceHeuristic,
    SplitAxis, SplitHeuristic,
};
pub use maxrects::{common_interval_length, MaxRectsBin};
pub use maxrects::FreeRectChoiceHeuristic as MaxRectsChoiceHeuristic;
pub use optimizer::{
    catalogue_usable, demand_usable, distinct_sizes, generate_initial_units, initial_unit_count, replaces_best,
    sort_pieces_for_layout, sort_results, stock_pieces_of_size, unique_shapes, unit_layout,
    Optimizer,
};
pub use population::Population;
pub use unit::OptimizerUnit;
