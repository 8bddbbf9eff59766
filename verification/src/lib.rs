//! Chart sound-effect generation for Sonolus servers: server selection, chart
//! entity lookups, note timing extraction, slide merging, thread planning and
//! sample-level mixing of 16-bit stereo PCM.
pub mod sound;
pub mod timeline;
pub mod text;
pub mod sonolus;
pub mod synthesis;
pub mod server;
pub mod level;
