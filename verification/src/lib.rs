//! A verified simulation core for Conway's Game of Life on the unbounded
//! integer lattice. Live cells are kept sparsely, as a set of positions;
//! one generation step evaluates the standard birth/survival rule over the
//! candidate set (live cells and their neighborhoods) against a single
//! snapshot of the board.

mod board;
mod laws;
mod position;

pub use board::all_can_move;
pub use board::cell_ind;
pub use board::alive_next;
pub use board::neighbor_count_spec;
pub use board::step_spec;
pub use board::Board;
pub use laws::lemma_lone_cell;
pub use laws::lemma_set_alive_idempotent;
pub use laws::lemma_step_empty;
pub use laws::lemma_step_locality;
pub use laws::well_separated;
pub use position::adjacent;
pub use position::Around;
pub use position::Position;
