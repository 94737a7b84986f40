//! Route ingestion and trip progress tracking for turn-by-turn navigation.

pub mod models;
pub mod codec;
pub mod json;
pub mod number;
pub mod osrm;
pub mod navigation;
