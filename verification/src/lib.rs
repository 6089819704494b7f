//! Caption, transcript and summary logic of the kotonoha overlay.

pub mod clock;
pub mod commands;
pub mod config;
pub mod events;
pub mod history;
pub mod pipeline;
pub mod stt;
pub mod text;
pub mod translate;
