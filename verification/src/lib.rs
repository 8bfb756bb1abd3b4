pub mod checker;
pub mod diagnostics;
pub mod model;
pub mod syntax;
pub mod sema;
pub mod bmc;
pub mod loader;
