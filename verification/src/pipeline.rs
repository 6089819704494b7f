//! Per-source pipeline decisions: job parameters, and which utterance each
//! segment belongs to.
use vstd::prelude::*;

use crate::config::{Config, Direction};
use crate::events::SourceKind;
use crate::stt::engine::JobKind;
use crate::text::{decimal, push_decimal};

verus! {

/// What every job of a capture session carries.
#[derive(Clone, Debug)]
pub struct PipelineParams {
    pub vad_model_path: String,
    /// Language passed to whisper ("ja" / "en")
    pub language: &'static str,
    /// Whether finalized utterances should be sent to the translation queue
    pub translate: bool,
}

impl PipelineParams {
    /// The parameters that `config` asks for.
    pub fn for_config(config: &Config, vad_model_path: String) -> (p: PipelineParams)
        ensures
            p.vad_model_path@ == vad_model_path@,
            p.language@ == config.spec_whisper_language(),
            p.translate == config.spec_translates(),
    {
        PipelineParams {
            vad_model_path,
            language: config.whisper_language(),
            translate: config.direction == Direction::EnJa,
        }
    }
}

/// The utterance id for number `n` of `source`: "mic-3", "sys-7".
pub open spec fn spec_utterance_id(source: SourceKind, n: nat) -> Seq<char> {
    source.spec_id_prefix() + seq!['-'] + decimal(n)
}

/// A fresh utterance id for `source`, numbered by the shared `counter`
/// (which moves on by one, wrapping around like an atomic `fetch_add`).
pub fn next_utterance_id(source: SourceKind, counter: &mut u64) -> (id: String)
    ensures
        id@ == spec_utterance_id(source, old(counter)@ as nat),
        *final(counter) == if *old(counter) == u64::MAX {
            0
        } else {
            *old(counter) + 1
        },
{
    let n = *counter;
    *counter = if n == u64::MAX {
        0
    } else {
        n + 1
    };
    let mut id = source.id_prefix().to_owned();
    id.push('-');
    push_decimal(&mut id, n);
    assert(id@ =~= spec_utterance_id(source, n as nat));
    id
}

/// Utterance ids are unique: two ids are equal only for the same source and number.
pub proof fn law_utterance_ids_unique(s1: SourceKind, n1: nat, s2: SourceKind, n2: nat)
    requires
        spec_utterance_id(s1, n1) == spec_utterance_id(s2, n2),
    ensures
        s1 == s2,
        n1 == n2,
{
    let a = spec_utterance_id(s1, n1);
    let b = spec_utterance_id(s2, n2);
    assert(a[0] == b[0]);
    if s1 != s2 {
        assert(a[0] != b[0]);
    }
    assert(a.skip(4) =~= decimal(n1));
    assert(b.skip(4) =~= decimal(n2));
    crate::text::lemma_decimal_injective(n1, n2);
}

/// The counter after one utterance number is taken from it.
pub open spec fn next_count(counter: u64) -> u64 {
    if counter == u64::MAX {
        0
    } else {
        (counter + 1) as u64
    }
}

/// The view of an optional string.
pub open spec fn opt_string_view(o: Option<String>) -> Option<Seq<char>> {
    match o {
        Some(s) => Some(s@),
        None => None,
    }
}

/// One segment of `source` arriving at a tracker whose open utterance is
/// `current`: the id the segment gets (`None`: skipped), the open utterance
/// after it, and the counter after it. A partial is skipped while the engine
/// is backlogged; otherwise the segment joins the open utterance, or opens
/// one with the counter's next number; a final closes it.
pub open spec fn tracker_step(
    source: SourceKind,
    current: Option<Seq<char>>,
    counter: u64,
    kind: JobKind,
    backlogged: bool,
) -> (Option<Seq<char>>, Option<Seq<char>>, u64) {
    if kind == JobKind::Partial && backlogged {
        (None, current, counter)
    } else {
        let (id, after) = match current {
            Some(c) => (c, counter),
            None => (spec_utterance_id(source, counter as nat), next_count(counter)),
        };
        (Some(id), if kind == JobKind::Final { None } else { Some(id) }, after)
    }
}

/// The ids a tracker of `source` hands out for the segments `events` (each a
/// kind and whether the engine was backlogged), one per segment.
pub open spec fn tracker_ids(
    source: SourceKind,
    current: Option<Seq<char>>,
    counter: u64,
    events: Seq<(JobKind, bool)>,
) -> Seq<Option<Seq<char>>>
    decreases events.len(),
{
    if events.len() == 0 {
        Seq::empty()
    } else {
        let (id, next, after) = tracker_step(source, current, counter, events[0].0, events[0].1);
        seq![id] + tracker_ids(source, next, after, events.drop_first())
    }
}

/// Number of finals among `events`.
pub open spec fn count_finals(events: Seq<(JobKind, bool)>) -> nat
    decreases events.len(),
{
    if events.len() == 0 {
        0
    } else {
        (if events[0].0 == JobKind::Final { 1nat } else { 0nat }) + count_finals(events.drop_first())
    }
}

/// A tracker whose open utterance (if any) is numbered `c`, with the counter
/// just past it.
pub open spec fn tracker_at(source: SourceKind, current: Option<Seq<char>>, counter: u64, c: u64) -> bool {
    ||| current == None::<Seq<char>> && counter == c
    ||| current == Some(spec_utterance_id(source, c as nat)) && counter == c + 1
}

/// The id the `i`-th of `events` gets from a tracker at number `c`.
pub open spec fn expected_id(source: SourceKind, c: u64, events: Seq<(JobKind, bool)>, i: int) -> Option<Seq<char>> {
    if events[i].0 == JobKind::Partial && events[i].1 {
        None
    } else {
        Some(spec_utterance_id(source, (c + count_finals(events.take(i))) as nat))
    }
}

proof fn lemma_tracker_ids(
    source: SourceKind,
    current: Option<Seq<char>>,
    counter: u64,
    c: u64,
    events: Seq<(JobKind, bool)>,
)
    requires
        tracker_at(source, current, counter, c),
        c + events.len() < u64::MAX,
    ensures
        tracker_ids(source, current, counter, events).len() == events.len(),
        forall|i: int|
            0 <= i < events.len() ==> #[trigger] tracker_ids(source, current, counter, events)[i]
                == expected_id(source, c, events, i),
    decreases events.len(),
{
    if events.len() > 0 {
        let e = events[0];
        let rest = events.drop_first();
        let step = tracker_step(source, current, counter, e.0, e.1);
        let c2: u64 = if e.0 == JobKind::Final { (c + 1) as u64 } else { c };
        assert(tracker_at(source, step.1, step.2, c2));
        lemma_tracker_ids(source, step.1, step.2, c2, rest);
        let ids = tracker_ids(source, current, counter, events);
        assert(ids == seq![step.0] + tracker_ids(source, step.1, step.2, rest));
        assert forall|i: int| 0 <= i < events.len() implies #[trigger] ids[i] == expected_id(source, c, events, i) by {
            if i > 0 {
                assert(events.take(i).drop_first() =~= rest.take(i - 1));
                assert(events[i] == rest[i - 1]);
                assert(ids[i] == tracker_ids(source, step.1, step.2, rest)[i - 1]);
            } else {
                assert(events.take(0) =~= Seq::<(JobKind, bool)>::empty());
            }
        }
    }
}

/// Over a whole run of one source's segments from a fresh tracker, with the
/// counter at `counter` and not wrapping: every segment that is not skipped
/// gets the id numbered `counter` plus the finals before it. So the segments
/// from one final (or the start) up to and including the next final share
/// one id, and the next utterance gets the next number.
pub proof fn law_utterance_id_held_until_final(source: SourceKind, counter: u64, events: Seq<(JobKind, bool)>)
    requires
        counter + events.len() < u64::MAX,
    ensures
        tracker_ids(source, None, counter, events).len() == events.len(),
        forall|i: int|
            0 <= i < events.len() ==> #[trigger] tracker_ids(source, None, counter, events)[i] == expected_id(
                source,
                counter,
                events,
                i,
            ),
{
    lemma_tracker_ids(source, None, counter, counter, events);
}

/// The ids successive calls of `next_utterance_id` give, for `sources`, from
/// the counter at `counter`.
pub open spec fn ids_from(counter: u64, sources: Seq<SourceKind>) -> Seq<Seq<char>>
    decreases sources.len(),
{
    if sources.len() == 0 {
        Seq::empty()
    } else {
        seq![spec_utterance_id(sources[0], counter as nat)] + ids_from(next_count(counter), sources.drop_first())
    }
}

/// Successive calls of `next_utterance_id` number their ids consecutively
/// from the counter (while it does not wrap), whatever the sources, so no id
/// is handed out twice.
pub proof fn law_utterance_ids_consecutive(counter: u64, sources: Seq<SourceKind>)
    requires
        counter + sources.len() <= u64::MAX,
    ensures
        ids_from(counter, sources).len() == sources.len(),
        forall|i: int|
            0 <= i < sources.len() ==> #[trigger] ids_from(counter, sources)[i] == spec_utterance_id(
                sources[i],
                (counter + i) as nat,
            ),
        forall|i: int, j: int|
            0 <= i < j < sources.len() ==> #[trigger] ids_from(counter, sources)[i] != #[trigger] ids_from(
                counter,
                sources,
            )[j],
    decreases sources.len(),
{
    if sources.len() > 0 {
        let rest = sources.drop_first();
        law_utterance_ids_consecutive(next_count(counter), rest);
        let ids = ids_from(counter, sources);
        assert forall|i: int| 0 <= i < sources.len() implies #[trigger] ids[i] == spec_utterance_id(
            sources[i],
            (counter + i) as nat,
        ) by {
            if i > 0 {
                assert(sources[i] == rest[i - 1]);
            }
        }
        assert forall|i: int, j: int| 0 <= i < j < sources.len() implies #[trigger] ids[i] != #[trigger] ids[j] by {
            if ids[i] == ids[j] {
                law_utterance_ids_unique(sources[i], (counter + i) as nat, sources[j], (counter + j) as nat);
            }
        }
    }
}

/// Which utterance the segments of one source belong to: partials and the
/// final of an utterance share one id; after a final the next segment
/// starts a new utterance.
pub struct UtteranceTracker {
    pub source: SourceKind,
    pub current: Option<String>,
}

impl UtteranceTracker {
    pub fn new(source: SourceKind) -> (t: Self)
        ensures
            t.source == source,
            t.current.is_none(),
    {
        UtteranceTracker { source, current: None }
    }

    /// The utterance id for the next segment, or `None` when the segment is
    /// skipped: a backlogged engine drops stale partials anyway, so a partial
    /// is not even queued while the engine has work waiting. See
    /// [`tracker_step`].
    pub fn on_segment(&mut self, kind: JobKind, engine_backlogged: bool, counter: &mut u64) -> (id: Option<String>)
        ensures
            final(self).source == old(self).source,
            (opt_string_view(id), opt_string_view(final(self).current), *final(counter)) == tracker_step(
                old(self).source,
                opt_string_view(old(self).current),
                *old(counter),
                kind,
                engine_backlogged,
            ),
    {
        if kind == JobKind::Partial && engine_backlogged {
            return None;
        }
        let id = match &self.current {
            Some(c) => c.clone(),
            None => next_utterance_id(self.source, counter),
        };
        if kind == JobKind::Final {
            self.current = None;
        } else {
            self.current = Some(id.clone());
        }
        Some(id)
    }
}

} // verus!
