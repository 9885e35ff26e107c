//! Projection of delimiter-separated columns: a selection expression is compiled
//! once against the first line into a plan of columns, and the plan is applied to
//! every later record.

pub mod split;
pub mod text;
pub mod mcut;
pub mod util;
pub mod laws;
