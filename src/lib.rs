pub mod pattern;
pub mod fragment;
pub mod generator;
pub mod midi;
