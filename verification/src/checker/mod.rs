pub mod human;
pub mod laws;
pub mod ltl;
pub mod sets;

pub use human::human_report_text;
pub use ltl::{check_properties, CheckReport, CheckStatus, Counterexample, PropertyResult};
