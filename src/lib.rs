//! A content-addressed build engine: identifiers, the attribute record codec,
//! the object model, the text-plan encoder and the step scheduler.

pub mod attributes;
pub mod execution;
pub mod id;
pub mod laws;
pub mod object;
pub mod order;
pub mod plan;
pub mod records;
pub mod scheduler;
pub mod table;
pub mod terminal;
pub mod text;
