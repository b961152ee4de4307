mod document;
mod error;
mod line_map;
mod text_span;
mod text_window;

pub use self::document::Document;
pub use self::error::Error;
pub use self::text_span::TextSpan;
pub use self::text_window::{
    char_at, char_before, last_after, lemma_backtrack_restores, lemma_boundary_in_suffix,
    lemma_next_boundary, lemma_scan_end_bounds, scan_end, start_before, width_at, CharPredicate,
    InvertedCharScanPredicate, TextWindow, WindowView,
};
pub use self::line_map::{
    breaks_before, column_of, is_line_break, is_line_of, lemma_parse_is_deterministic,
    line_breaks_of, strictly_increasing, LineMap,
};
