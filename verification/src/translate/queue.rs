//! Decisions of the translation worker: which model to use, what to keep
//! of a streamed translation, and when to tell the user that Ollama failed.
use vstd::prelude::*;

use crate::events::TranslationEvent;

verus! {

/// A finalized utterance waiting for translation.
pub struct TranslationRequest {
    pub utterance_id: String,
    pub text: String,
}

/// The message shown when no model is configured and Ollama lists none.
pub open spec fn no_model_message() -> Seq<char> {
    "Ollama が起動していないかモデルがありません。翻訳をスキップします。"@
}

/// What to do with a request when no model is configured.
pub enum ModelDecision {
    /// Translate with this model, and remember it in the configuration
    UseAndRemember(String),
    /// Skip the request, showing this message when there is one
    Skip(Option<String>),
}

/// The translation of one utterance as it streams in.
pub struct StreamingTranslation {
    pub utterance_id: String,
    /// Everything received so far
    pub full_text: String,
}

impl StreamingTranslation {
    pub fn new(utterance_id: String) -> (t: Self)
        ensures
            t.utterance_id@ == utterance_id@,
            t.full_text@ == Seq::<char>::empty(),
    {
        StreamingTranslation { utterance_id, full_text: String::new() }
    }

    /// Takes in one streamed piece; returns the event that shows it.
    pub fn on_delta(&mut self, delta: String, done: bool) -> (event: TranslationEvent)
        ensures
            final(self).utterance_id@ == old(self).utterance_id@,
            final(self).full_text@ == old(self).full_text@ + delta@,
            event.utterance_id@ == old(self).utterance_id@,
            event.delta@ == delta@,
            event.done == done,
    {
        self.full_text.append(delta.as_str());
        TranslationEvent { utterance_id: self.utterance_id.clone(), delta, done }
    }
}

/// How a translation attempt ended, as the worker acts on it.
pub struct Finished {
    /// The translation to attach to the utterance in the session history
    pub store: Option<String>,
    /// The message to show the user
    pub report: Option<String>,
}

/// One finished request at a worker that has (`warned`) or has not told the
/// user yet that Ollama is unavailable: whether the request's failure is
/// reported, and whether the worker has told the user afterwards. A success
/// (`ok`) clears the warning; a failure is reported unless already told.
pub open spec fn worker_step(warned: bool, ok: bool) -> (bool, bool) {
    if ok {
        (false, false)
    } else {
        (!warned, true)
    }
}

/// For each of the finished requests `outcomes` (true: translated), whether
/// its failure is reported, starting at `warned`.
pub open spec fn worker_reports(warned: bool, outcomes: Seq<bool>) -> Seq<bool>
    decreases outcomes.len(),
{
    if outcomes.len() == 0 {
        Seq::empty()
    } else {
        let (report, after) = worker_step(warned, outcomes[0]);
        seq![report] + worker_reports(after, outcomes.drop_first())
    }
}

/// Over any run of requests, a failure is reported exactly when the request
/// before it succeeded (for the first request: when the user was not told
/// yet). So a run of consecutive failures is reported at most once, and
/// after a success the next failure is reported again; a failure never stops
/// the worker, which takes every later request.
pub proof fn law_failure_reported_once_until_success(warned: bool, outcomes: Seq<bool>)
    ensures
        worker_reports(warned, outcomes).len() == outcomes.len(),
        forall|i: int|
            0 <= i < outcomes.len() ==> #[trigger] worker_reports(warned, outcomes)[i] == (!outcomes[i] && if i
                == 0 {
                !warned
            } else {
                outcomes[i - 1]
            }),
    decreases outcomes.len(),
{
    if outcomes.len() > 0 {
        let rest = outcomes.drop_first();
        let (report, after) = worker_step(warned, outcomes[0]);
        law_failure_reported_once_until_success(after, rest);
        let r = worker_reports(warned, outcomes);
        assert(r == seq![report] + worker_reports(after, rest));
        assert forall|i: int| 0 <= i < outcomes.len() implies #[trigger] r[i] == (!outcomes[i] && if i == 0 {
            !warned
        } else {
            outcomes[i - 1]
        }) by {
            if i > 0 {
                assert(outcomes[i] == rest[i - 1]);
                assert(r[i] == worker_reports(after, rest)[i - 1]);
                if i > 1 {
                    assert(outcomes[i - 1] == rest[i - 2]);
                }
            }
        }
    }
}

/// The translation worker's memory between requests: whether the user has
/// already been told that Ollama is unavailable. Connection loss is reported
/// only once, until a translation succeeds again.
pub struct TranslationWorker {
    pub warned: bool,
}

impl TranslationWorker {
    pub fn new() -> (w: Self)
        ensures
            !w.warned,
    {
        TranslationWorker { warned: false }
    }

    /// Picks the model when none is configured: the first model Ollama
    /// lists, which is then remembered; without one the request is skipped,
    /// with a message the first time.
    pub fn on_model_listing(&mut self, first: Option<String>) -> (d: ModelDecision)
        ensures
            match first {
                Some(m) => d matches ModelDecision::UseAndRemember(u) && u@ == m@ && final(self).warned
                    == old(self).warned,
                None => (d matches ModelDecision::Skip(r) && r.is_some(), final(self).warned) == worker_step(
                    old(self).warned,
                    false,
                ) && match d {
                    ModelDecision::Skip(r) => match r {
                        Some(msg) => !old(self).warned && msg@ == no_model_message(),
                        None => old(self).warned,
                    },
                    _ => false,
                },
            },
    {
        match first {
            Some(m) => ModelDecision::UseAndRemember(m),
            None => {
                let report = if !self.warned {
                    Some("Ollama が起動していないかモデルがありません。翻訳をスキップします。".to_owned())
                } else {
                    None
                };
                self.warned = true;
                ModelDecision::Skip(report)
            },
        }
    }

    /// Acts on the end of a translation: a success clears the warning and
    /// keeps the translation (when anything arrived); a failure is reported
    /// the first time only, and transcription goes on.
    pub fn on_finished(&mut self, translation: StreamingTranslation, result: Result<(), String>) -> (f: Finished)
        ensures
            match result {
                Ok(()) => !final(self).warned && f.report.is_none() && match f.store {
                    Some(t) => translation.full_text@.len() > 0 && t@ == translation.full_text@,
                    None => translation.full_text@.len() == 0,
                },
                Err(e) => final(self).warned && f.store.is_none() && match f.report {
                    Some(r) => !old(self).warned && r@ == e@,
                    None => old(self).warned,
                },
            },
            (f.report.is_some(), final(self).warned) == worker_step(old(self).warned, result is Ok),
    {
        match result {
            Ok(()) => {
                self.warned = false;
                let store = if translation.full_text.as_str().unicode_len() > 0 {
                    Some(translation.full_text)
                } else {
                    None
                };
                Finished { store, report: None }
            },
            Err(e) => {
                let report = if !self.warned {
                    Some(e)
                } else {
                    None
                };
                self.warned = true;
                Finished { store: None, report }
            },
        }
    }
}

} // verus!
