//! Sales summary library: exact cents-denominated money, ordered
//! regex-based product grouping, CSV record parsing, and an aggregated,
//! sortable sales report.

pub mod groups;
pub mod record;
pub mod render;
pub mod report;
pub mod sort;
pub mod text;
pub mod usd;

pub use groups::ConfigError;
pub use groups::GroupRule;
pub use groups::Groups;
pub use report::Product;
pub use report::Report;
pub use record::Record;
pub use record::RecordError;
pub use usd::ParseError;
pub use usd::Usd;
