//! The compatibility-report pipeline of the FastForward Engine database: the
//! report form's vocabulary and identity rules, the parser that reads a
//! rendered report back, the catalogue lookup, and the aggregation that turns
//! many reports into proposals a maintainer reviews.

pub mod text;
pub mod store_kind;
pub mod ids;
pub mod launch_flags;
pub mod form;
pub mod speed;
pub mod report;
pub mod parse;
pub mod profiles_lite;
pub mod tally;
pub mod aggregate;
pub mod review;
