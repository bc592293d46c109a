//! A relative-error quantile sketch over logarithmic bucket indices, and a
//! small growable sequence container.
pub mod ring;
pub mod sketch;
