//! A template-token substitution library: given a source text, a JSON
//! document of the shape `{"vars": {key: value, ...}}`, and an encoding
//! mode, it replaces every literal occurrence of each key in the source
//! with the mapped value, HTML-escaping the value when the mode is `html`.

pub mod args;
pub mod subst;
pub mod text;
pub mod vars;

pub use args::check_args;
pub use subst::replace_tokens;
pub use subst::substitute;
pub use text::replace_literal;
pub use vars::VarsError;
