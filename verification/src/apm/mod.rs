//! The monitoring sidecar: which metrics it reads, what it makes of an
//! exposition, and the page it shows.

pub mod arrange;
pub mod assets;
pub mod config;
pub mod dashboard;
pub mod exposition;
pub mod html;
pub mod metrics;
pub mod number;
pub mod schema;
