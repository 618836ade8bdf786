//! Keeps machine-managed constant declarations inside source files in step
//! with a single table of named constant definitions: resolves the table's
//! value expressions to literal hexadecimal values, and rewrites each target
//! file so that accessor functions, stale generated blocks, call-form usages
//! and superseded imports are replaced by one regenerated constant block.

pub mod text;
pub mod table;
pub mod hex;
pub mod resolve;
pub mod rewrite;
pub mod patterns;
pub mod notifier;
pub mod laws;
