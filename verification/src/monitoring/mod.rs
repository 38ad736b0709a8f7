//! What the server says about itself.
//!
//! All of it is read from live state, and the views share their collectors so
//! that a reader row is the same row wherever it is shown.

pub mod metrics;
pub mod metrics_laws;
pub mod metrics_writer;
pub mod moments;
pub mod readers;
pub mod scrape_laws;
pub mod status;
pub mod status_laws;
