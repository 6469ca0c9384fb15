pub mod board;
pub mod candidates;
pub mod checker;
pub mod groups;
pub mod solver;
pub mod text;

pub use board::Position;
pub use board::SudokuBoard;
pub use candidates::get_valid_states;
pub use candidates::TileSuperpos;
pub use checker::is_solved;
pub use solver::solve;
pub use solver::Branch;
pub use text::ParseError;
