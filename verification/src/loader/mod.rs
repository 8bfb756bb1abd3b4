pub mod imports;

pub use imports::{load_spec_with, LoadOptions, LoadedSpec, ModuleId, ModuleResolver};
