//! A small verified text toolkit: a line-oriented `KEY=VALUE` configuration
//! parser, a structural email-format check, and a display-length truncator.
//!
//! All lengths and positions are measured in Unicode scalar values
//! (characters), and every string is modelled in specifications as its
//! `Seq<char>` view.

pub mod config;
pub mod email;
pub mod scan;
pub mod trunc;

pub use config::parse_config;
pub use config::ConfigMap;
pub use config::ParseError;
pub use email::validate_email;
pub use trunc::truncate;
