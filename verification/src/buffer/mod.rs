pub mod document;
pub mod line_index;
pub mod piece_table;
pub mod undo;

pub use document::{Document, LineEnding};
pub use line_index::LineIndex;
pub use piece_table::{PieceSource, PieceTable, ReadError};
pub use undo::{EditAction, UndoStack};
