//! The readers, by kind of layout.
pub mod chunked;
pub mod constant;
pub mod dict;
pub mod flat;
pub mod lane;
pub mod scalar_fn;
pub mod struct_;
pub mod zoned;
