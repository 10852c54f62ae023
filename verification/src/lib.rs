//! Turns a selection of source files into a single prompt text: pattern
//! compilation, include filtering, content normalisation, the source tree,
//! token-budget sampling, template binding and multi-root framing.

pub mod exclude;
pub mod filter;
pub mod frame;
pub mod normalize;
pub mod path;
pub mod pattern;
pub mod sample;
pub mod sink;
pub mod template;
pub mod text;
pub mod token;
pub mod tree;
pub mod walk;

pub use exclude::{ExcludeSet, RuleError};
pub use filter::should_include_file;
pub use frame::{compose, indent, wrap_root};
pub use normalize::{shorten_long_base64_strings, wrap_code_block};
pub use path::label;
pub use pattern::{
    default_excludes, exclude_rules, parse_branches, parse_ignore_file, parse_patterns,
};
pub use sample::{sample, sample_in_order};
pub use sink::{clipboard_content, keep_existing, parse_paths_from_clipboard};
pub use template::{
    extract_undefined_variables, handle_undefined_variables, handlebars_setup, render_template,
    RenderContext, TemplateEngine, TemplateError,
};
pub use token::{get_encoding, get_model_info, Encoding};
pub use tree::TreeNode;
pub use walk::{traverse_directory, traverse_file, Entry, FileRecord, Traversal, WalkOptions};
