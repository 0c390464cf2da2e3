//! Network exposure audit: parses what `ss`, `ufw` and `docker ps` print and
//! answers, for each listening socket, whether it can be reached and by what
//! mechanism.
pub mod audit;
pub mod docker;
pub mod exposure;
pub mod faces;
pub mod format;
pub mod ip;
pub mod json;
pub mod laws;
pub mod numeral;
pub mod palette;
pub mod pattern;
pub mod printing;
pub mod reading;
mod scan;
pub mod spelling;
pub mod ss;
pub mod text;
pub mod ufw;
