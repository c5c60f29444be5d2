//! Row-indexed readers over columnar data.
pub mod apply;
pub mod arithmetic;
pub mod array;
pub mod arrow;
pub mod cells;
pub mod chunks;
pub mod delivery;
pub mod display;
pub mod dtype;
pub mod error;
pub mod estimate;
pub mod expr;
pub mod future;
pub mod laws;
pub mod layout;
pub mod mask;
pub mod numeric;
pub mod operator;
pub mod reader;
pub mod readers;
pub mod row;
pub mod scalar;
pub mod scan;
pub mod selection;
pub mod stats;
pub mod track;
