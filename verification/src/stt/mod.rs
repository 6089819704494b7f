//! Speech-to-text: job scheduling for the whisper thread, utterance
//! segmentation, and the model catalog.

pub mod engine;
pub mod models;
pub mod segmenter;
