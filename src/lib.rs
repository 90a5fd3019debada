//! Parsing of the kernel's mount table: one record per line, six fields
//! separated by spaces or tabs, with octal escapes in device, mount point and
//! options.

pub mod error;
pub mod escape;
pub mod line;
pub mod mounts;
pub mod options;
pub mod text;

pub use error::ParseError;
pub use escape::{escaped_backslash, escaped_space, transform_escaped};
pub use line::{not_whitespace, parse_line, parse_line_alternate, Mount};
pub use mounts::{next_mount, MountsError};
pub use options::mount_opts;
