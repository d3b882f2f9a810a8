pub mod buffer;
pub mod editing;
pub mod encoding;
pub mod file_io;
pub mod find;
pub mod language;
pub mod session;
pub mod settings;
pub mod tabs;
pub mod text;
pub mod theme;
pub mod view;
pub mod wrap;

pub use buffer::{Document, LineEnding, LineIndex, PieceTable};
pub use encoding::FileEncoding;
pub use settings::AppSettings;
pub use language::{HighlightState, LanguageId, LanguageMode, LanguageRegistry, TokenKind, TokenSpan, FORMAT_MAX_BYTES};
