//! Statistics over a quarantined-spam corpus: dense score and date series,
//! per-day classification rates, weekly re-bucketing, sender-domain ranking,
//! and the data shapes that charts are drawn from.

pub mod calendar;
pub mod domains;
pub mod message;
pub mod order;
pub mod pattern;
pub mod plot;
pub mod report;
pub mod rspamd;
pub mod series;
pub mod text;
pub mod statistics;
pub mod spam;
