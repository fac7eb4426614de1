//! The comments of Rust sources: finding them between the tokens, and writing their
//! Markdown anew on lines of a given width.
//!
//! [`extract::extract_comments`] and [`render::format_md`] are where to start.
pub mod blank_laws;
pub mod block_laws;
pub mod comment;
pub mod comment_laws;
pub mod comment_map;
pub mod doc_laws;
pub mod extract;
pub mod extract_laws;
pub mod fill_laws;
pub mod gap_laws;
pub mod kept;
pub mod line;
pub mod line_laws;
pub mod location;
pub mod markdown;
pub mod mask_laws;
pub mod nest_laws;
pub mod page;
pub mod place_laws;
pub mod prefix_laws;
pub mod render;
pub mod render_laws;
pub mod soft_laws;
pub mod span_laws;
pub mod stack;
pub mod step_laws;
pub mod stop_laws;
pub mod stops;
pub mod text;
pub mod text_laws;
pub mod view_laws;
pub mod wide_laws;
pub mod written_laws;
pub mod tokens;
