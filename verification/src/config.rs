//! User settings.
use vstd::prelude::*;

verus! {

/// Which language the meeting is in.
#[derive(Clone, Copy, Debug, PartialEq, Eq, Structural)]
pub enum Direction {
    /// Japanese meeting: transcribe in Japanese only
    Ja,
    /// English meeting: transcribe in English + translate to Japanese
    EnJa,
}

/// The persisted settings.
#[derive(Clone, Debug)]
pub struct Config {
    pub direction: Direction,
    pub ollama_model: Option<String>,
    pub mic_enabled: bool,
    pub system_enabled: bool,
}

impl Default for Config {
    fn default() -> (c: Self)
        ensures
            c.direction == Direction::Ja,
            c.ollama_model.is_none(),
            c.mic_enabled,
            c.system_enabled,
    {
        Config { direction: Direction::Ja, ollama_model: None, mic_enabled: true, system_enabled: true }
    }
}

impl Config {
    /// Language code passed to whisper.
    pub open spec fn spec_whisper_language(&self) -> Seq<char> {
        match self.direction {
            Direction::Ja => "ja"@,
            Direction::EnJa => "en"@,
        }
    }

    /// Language code passed to whisper.
    pub fn whisper_language(&self) -> (code: &'static str)
        ensures
            code@ == self.spec_whisper_language(),
    {
        match self.direction {
            Direction::Ja => "ja",
            Direction::EnJa => "en",
        }
    }

    /// Whether finalized utterances are translated (English meetings).
    pub open spec fn spec_translates(&self) -> bool {
        self.direction == Direction::EnJa
    }
}

} // verus!
