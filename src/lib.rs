pub mod history;
pub mod laws;
pub mod piece;
pub mod piece_table;
pub mod removal;
pub mod sequence;
pub mod slice_trait;
pub mod text;

pub use history::{Change, ChangeType, Commit, Entry, History};
pub use piece::{Piece, PieceSource};
pub use piece_table::{EditError, PieceTable};
pub use slice_trait::PieceTableSlice;
