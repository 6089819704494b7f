use vstd::prelude::*;

verus! {

/// Which audio source an utterance was captured from.
#[derive(Clone, Copy, Debug, PartialEq, Eq, Structural, Hash)]
pub enum SourceKind {
    Mic,
    System,
}

impl SourceKind {
    /// Prefix used in utterance ids ("mic-3", "sys-7").
    pub open spec fn spec_id_prefix(self) -> Seq<char> {
        match self {
            SourceKind::Mic => seq!['m', 'i', 'c'],
            SourceKind::System => seq!['s', 'y', 's'],
        }
    }

    /// Prefix used in utterance ids ("mic-3", "sys-7").
    pub fn id_prefix(self) -> (res: &'static str)
        ensures
            res@ == self.spec_id_prefix(),
    {
        match self {
            SourceKind::Mic => {
                proof {
                    reveal_strlit("mic");
                }
                "mic"
            },
            SourceKind::System => {
                proof {
                    reveal_strlit("sys");
                }
                "sys"
            },
        }
    }
}


impl SourceKind {
    /// Speaker label used in exported transcripts.
    pub open spec fn spec_speaker_ja(self) -> Seq<char> {
        match self {
            SourceKind::Mic => "自分"@,
            SourceKind::System => "相手"@,
        }
    }

    /// Speaker label used in exported transcripts.
    pub fn speaker_ja(self) -> (res: &'static str)
        ensures
            res@ == self.spec_speaker_ja(),
    {
        match self {
            SourceKind::Mic => "自分",
            SourceKind::System => "相手",
        }
    }
}

/// A caption update for the overlay.
#[derive(Clone, Debug)]
pub struct TranscriptEvent {
    pub utterance_id: String,
    pub source: SourceKind,
    pub text: String,
    pub is_final: bool,
}

/// A piece of a streamed translation for the overlay.
#[derive(Clone, Debug)]
pub struct TranslationEvent {
    pub utterance_id: String,
    pub delta: String,
    pub done: bool,
}

} // verus!
