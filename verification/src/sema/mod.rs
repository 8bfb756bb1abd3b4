pub mod check;

pub use check::check_source_file;
pub mod elaborate;
