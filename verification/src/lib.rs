//! Text filter library: independent pure transforms over UTF-8 text,
//! in the style of template-engine filters (HTML escaping, tag
//! stripping, newline handling, truncation, slug generation,
//! concatenation, pluralization, default-value substitution).

pub mod html;
mod strutil;
pub mod text;

pub use html::escape;
pub use html::newline_to_br;
pub use html::strip_html;
pub use html::strip_newlines;
pub use text::append;
pub use text::default_value;
pub use text::handleize;
pub use text::pluralize;
pub use text::prepend;
pub use text::truncate;
