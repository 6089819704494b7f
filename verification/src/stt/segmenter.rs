//! The utterance segmenter: decides, from voice-activity results, when a
//! stretch of 16 kHz audio is speech, when to show a partial caption, and
//! when an utterance is over. The samples themselves stay with the caller,
//! who applies each decision to its buffer.
use vstd::prelude::*;

verus! {

/// Samples per second of the audio the segmenter sees.
pub const SAMPLE_RATE: usize = 16_000;

/// How often to run VAD (300 ms)
pub const VAD_INTERVAL: usize = 4_800;

/// Tail window fed to VAD (1.2 s)
pub const TAIL_WINDOW: usize = 19_200;

/// Treat the utterance as ended if the tail is silent for this long (600 ms)
pub const SILENCE_END: usize = 9_600;

/// How often to emit partials while speech continues (1.5 s)
pub const PARTIAL_EVERY: usize = 24_000;

/// Force-split length for an utterance (12 s)
pub const MAX_UTTERANCE: usize = 192_000;

/// Pre-roll kept while not in speech (1 s)
pub const PRE_ROLL: usize = 16_000;

/// whisper.cpp's VAD context accumulates internal state across calls, making
/// processing time grow linearly, so it is recreated after this many calls.
pub const VAD_RECREATE_EVERY: usize = 50;

/// A VAD run that is due: which part of the buffer to look at, and whether to
/// recreate the VAD context first.
pub struct VadRound {
    pub recreate: bool,
    pub window_start: usize,
    pub window_len: usize,
}

/// What the caller does with its buffer after a VAD run.
#[derive(Clone, Copy, Debug, PartialEq, Eq, Structural)]
pub enum SegmentAction {
    /// Leave the buffer as it is
    Keep,
    /// Drop this many samples from the front (silence beyond the pre-roll)
    DropFront(usize),
    /// Emit a copy of the whole buffer as a partial utterance
    Partial,
    /// Emit the whole buffer as a finished utterance and empty it
    Final,
}

/// What a VAD run found: (any speech in the window, speech within the
/// trailing SILENCE_END); a failed run counts as speech.
pub open spec fn heard(detection: Option<(bool, bool)>) -> (bool, bool) {
    match detection {
        Some(d) => d,
        None => (true, true),
    }
}

/// What a VAD run asks of a segmenter in state `s`. Outside speech: speech
/// starts an utterance (nothing to do yet); silence trims the buffer to the
/// pre-roll. In speech: the utterance ends when the tail is silent or the
/// buffer reached MAX_UTTERANCE; otherwise a partial is due once the buffer
/// has grown PARTIAL_EVERY samples past the last partial.
pub open spec fn vad_action(s: Segmenter, detection: Option<(bool, bool)>) -> SegmentAction {
    let (any, recent) = heard(detection);
    if !s.in_speech {
        if any {
            SegmentAction::Keep
        } else if s.buffer_len > PRE_ROLL {
            SegmentAction::DropFront((s.buffer_len - PRE_ROLL) as usize)
        } else {
            SegmentAction::Keep
        }
    } else if !recent || s.buffer_len >= MAX_UTTERANCE {
        SegmentAction::Final
    } else if s.buffer_len - s.last_partial_at >= PARTIAL_EVERY {
        SegmentAction::Partial
    } else {
        SegmentAction::Keep
    }
}

/// The segmenter after a VAD run in state `s`; see [`vad_action`].
pub open spec fn after_vad(s: Segmenter, detection: Option<(bool, bool)>) -> Segmenter {
    let (any, recent) = heard(detection);
    if !s.in_speech {
        if any {
            Segmenter { in_speech: true, last_partial_at: 0, ..s }
        } else if s.buffer_len > PRE_ROLL {
            Segmenter { buffer_len: PRE_ROLL, ..s }
        } else {
            s
        }
    } else if !recent || s.buffer_len >= MAX_UTTERANCE {
        Segmenter { buffer_len: 0, in_speech: false, last_partial_at: 0, ..s }
    } else if s.buffer_len - s.last_partial_at >= PARTIAL_EVERY {
        Segmenter { last_partial_at: s.buffer_len, ..s }
    } else {
        s
    }
}

/// The segmenter after `n` samples arrive in state `s`: the buffer grows,
/// and a VAD run is counted when VAD_INTERVAL samples have gathered.
pub open spec fn after_samples(s: Segmenter, n: usize) -> Segmenter {
    if s.samples_since_vad + n < VAD_INTERVAL {
        Segmenter {
            buffer_len: (s.buffer_len + n) as usize,
            samples_since_vad: (s.samples_since_vad + n) as usize,
            ..s
        }
    } else {
        Segmenter {
            buffer_len: (s.buffer_len + n) as usize,
            samples_since_vad: 0,
            vad_calls: (s.vad_calls + 1) as usize,
            ..s
        }
    }
}

/// State machine that takes 16 kHz mono audio and extracts speech segments,
/// given Silero VAD results.
pub struct Segmenter {
    /// Samples the caller's buffer holds
    pub buffer_len: usize,
    pub in_speech: bool,
    /// Samples pushed since the last VAD run
    pub samples_since_vad: usize,
    /// Buffer length at the last partial
    pub last_partial_at: usize,
    /// VAD runs since the context was last created
    pub vad_calls: usize,
}

impl Segmenter {
    /// The state's internal consistency.
    pub open spec fn wf(&self) -> bool {
        &&& self.last_partial_at <= self.buffer_len
        &&& !self.in_speech ==> self.last_partial_at == 0
        &&& self.samples_since_vad <= self.buffer_len
        &&& self.samples_since_vad < VAD_INTERVAL
    }

    pub fn new() -> (s: Self)
        ensures
            s.wf(),
            s.buffer_len == 0,
            !s.in_speech,
            s.samples_since_vad == 0,
            s.vad_calls == 0,
    {
        Segmenter { buffer_len: 0, in_speech: false, samples_since_vad: 0, last_partial_at: 0, vad_calls: 0 }
    }

    /// Takes in `n` new samples (appended to the caller's buffer). Every
    /// VAD_INTERVAL samples a VAD run is due over the buffer's tail window;
    /// every VAD_RECREATE_EVERY runs the context is to be recreated first.
    pub fn push(&mut self, n: usize) -> (round: Option<VadRound>)
        requires
            old(self).wf(),
            old(self).buffer_len + n <= usize::MAX,
            old(self).vad_calls < usize::MAX,
        ensures
            final(self).wf(),
            *final(self) == after_samples(*old(self), n),
            final(self).buffer_len == old(self).buffer_len + n,
            final(self).in_speech == old(self).in_speech,
            final(self).last_partial_at == old(self).last_partial_at,
            match round {
                None => old(self).samples_since_vad + n < VAD_INTERVAL && final(self).samples_since_vad
                    == old(self).samples_since_vad + n && final(self).vad_calls == old(self).vad_calls,
                Some(r) => {
                    &&& old(self).samples_since_vad + n >= VAD_INTERVAL
                    &&& final(self).samples_since_vad == 0
                    &&& final(self).vad_calls == old(self).vad_calls + 1
                    &&& r.recreate == (final(self).vad_calls >= VAD_RECREATE_EVERY)
                    &&& r.window_len == if final(self).buffer_len < TAIL_WINDOW {
                        final(self).buffer_len
                    } else {
                        TAIL_WINDOW
                    }
                    &&& r.window_start + r.window_len == final(self).buffer_len
                },
            },
    {
        self.buffer_len = self.buffer_len + n;
        if self.samples_since_vad + n < VAD_INTERVAL {
            self.samples_since_vad = self.samples_since_vad + n;
            return None;
        }
        self.samples_since_vad = 0;
        self.vad_calls = self.vad_calls + 1;
        let recreate = self.vad_calls >= VAD_RECREATE_EVERY;
        let window_len = if self.buffer_len < TAIL_WINDOW {
            self.buffer_len
        } else {
            TAIL_WINDOW
        };
        Some(VadRound { recreate, window_start: self.buffer_len - window_len, window_len })
    }

    /// The VAD context was recreated: the call count starts over.
    pub fn vad_recreated(&mut self)
        requires
            old(self).wf(),
        ensures
            final(self).wf(),
            final(self).vad_calls == 0,
            final(self).buffer_len == old(self).buffer_len,
            final(self).in_speech == old(self).in_speech,
            final(self).samples_since_vad == old(self).samples_since_vad,
            final(self).last_partial_at == old(self).last_partial_at,
    {
        self.vad_calls = 0;
    }

    /// Acts on a VAD run over the window: `detection` is (any speech in the
    /// window, speech within the trailing SILENCE_END), or `None` when VAD
    /// failed, which counts as speech (whisper decides then). It follows the
    /// `push` that asked for the run.
    ///
    /// Outside speech: speech starts an utterance; silence trims the buffer
    /// to the pre-roll. In speech: the utterance ends when the tail is
    /// silent or the buffer reached MAX_UTTERANCE; otherwise a partial is
    /// due every PARTIAL_EVERY samples.
    pub fn on_vad(&mut self, detection: Option<(bool, bool)>) -> (action: SegmentAction)
        requires
            old(self).wf(),
            old(self).samples_since_vad == 0,
        ensures
            final(self).wf(),
            final(self).samples_since_vad == 0,
            final(self).vad_calls == old(self).vad_calls,
            !final(self).in_speech ==> final(self).buffer_len <= PRE_ROLL,
            action == vad_action(*old(self), detection),
            *final(self) == after_vad(*old(self), detection),
    {
        let (any, recent) = match detection {
            Some(d) => d,
            None => (true, true),
        };
        if !self.in_speech {
            if any {
                self.in_speech = true;
                self.last_partial_at = 0;
                return SegmentAction::Keep;
            } else if self.buffer_len > PRE_ROLL {
                let excess = self.buffer_len - PRE_ROLL;
                self.buffer_len = PRE_ROLL;
                return SegmentAction::DropFront(excess);
            }
            return SegmentAction::Keep;
        }
        let ended = !recent;
        let too_long = self.buffer_len >= MAX_UTTERANCE;
        if ended || too_long {
            self.buffer_len = 0;
            self.in_speech = false;
            self.last_partial_at = 0;
            SegmentAction::Final
        } else if self.buffer_len - self.last_partial_at >= PARTIAL_EVERY {
            self.last_partial_at = self.buffer_len;
            SegmentAction::Partial
        } else {
            SegmentAction::Keep
        }
    }
}

/// What reaches a segmenter: `n` new samples, or the result of the VAD run
/// they made due.
pub enum SegmentEvent {
    Samples(usize),
    Vad(Option<(bool, bool)>),
}

/// The segmenter after `e` in state `s`.
pub open spec fn after_event(s: Segmenter, e: SegmentEvent) -> Segmenter {
    match e {
        SegmentEvent::Samples(n) => after_samples(s, n),
        SegmentEvent::Vad(d) => after_vad(s, d),
    }
}

/// Whether `e` in state `s` is a VAD run that asks for `action`.
pub open spec fn asks(s: Segmenter, e: SegmentEvent, action: SegmentAction) -> bool {
    match e {
        SegmentEvent::Samples(_) => false,
        SegmentEvent::Vad(d) => vad_action(s, d) == action,
    }
}

/// The states a segmenter goes through from `s` as `events` reach it: the
/// state before each event, then the state after the last.
pub open spec fn segment_states(s: Segmenter, events: Seq<SegmentEvent>) -> Seq<Segmenter>
    decreases events.len(),
{
    if events.len() == 0 {
        seq![s]
    } else {
        let before = segment_states(s, events.drop_last());
        before.push(after_event(before.last(), events.last()))
    }
}

proof fn lemma_segment_states(s: Segmenter, events: Seq<SegmentEvent>)
    ensures
        segment_states(s, events).len() == events.len() + 1,
        segment_states(s, events)[0] == s,
        forall|k: int|
            0 <= k < events.len() ==> #[trigger] segment_states(s, events)[k + 1] == after_event(
                segment_states(s, events)[k],
                events[k],
            ),
    decreases events.len(),
{
    if events.len() > 0 {
        let d = events.drop_last();
        lemma_segment_states(s, d);
        assert forall|k: int| 0 <= k < events.len() implies #[trigger] segment_states(s, events)[k + 1]
            == after_event(segment_states(s, events)[k], events[k]) by {
            if k < events.len() - 1 {
                assert(events[k] == d[k]);
            }
        }
    }
}

/// Whether no sample batch in `events` would overflow the buffer length.
pub open spec fn lengths_fit(s: Segmenter, events: Seq<SegmentEvent>) -> bool {
    forall|k: int|
        0 <= k < events.len() ==> match #[trigger] events[k] {
            SegmentEvent::Samples(n) => segment_states(s, events)[k].buffer_len + n <= usize::MAX,
            SegmentEvent::Vad(_) => true,
        }
}

/// After a partial at `i`, until a final: still in speech, the buffer holds
/// at least what it held at the partial, and the last partial is at least
/// that long.
proof fn lemma_after_partial(s: Segmenter, events: Seq<SegmentEvent>, i: int, k: int)
    requires
        0 <= i < k <= events.len(),
        lengths_fit(s, events),
        asks(segment_states(s, events)[i], events[i], SegmentAction::Partial),
        forall|m: int| i < m < k ==> !asks(segment_states(s, events)[m], #[trigger] events[m], SegmentAction::Final),
    ensures
        ({
            let st = segment_states(s, events);
            &&& st[k].in_speech
            &&& st[k].last_partial_at >= st[i].buffer_len
            &&& st[k].buffer_len >= st[k].last_partial_at
        }),
    decreases k - i,
{
    lemma_segment_states(s, events);
    let st = segment_states(s, events);
    let p = k - 1;
    assert(st[p + 1] == after_event(st[p], events[p]));
    if k > i + 1 {
        lemma_after_partial(s, events, i, p);
        assert(!asks(st[p], events[p], SegmentAction::Final));
        match events[p] {
            SegmentEvent::Samples(n) => {
                assert(st[p].buffer_len + n <= usize::MAX);
            },
            SegmentEvent::Vad(d) => {},
        }
    }
}

/// After a final at `i` (or from a segmenter not in speech), until a partial
/// or a final: no partial has been taken since.
proof fn lemma_no_partial_since(s: Segmenter, events: Seq<SegmentEvent>, i: int, k: int)
    requires
        0 <= i <= k <= events.len(),
        segment_states(s, events)[i].last_partial_at == 0,
        forall|m: int|
            i <= m < k ==> !asks(segment_states(s, events)[m], #[trigger] events[m], SegmentAction::Final)
                && !asks(segment_states(s, events)[m], events[m], SegmentAction::Partial),
    ensures
        segment_states(s, events)[k].last_partial_at == 0,
    decreases k - i,
{
    lemma_segment_states(s, events);
    let st = segment_states(s, events);
    if k > i {
        let p = k - 1;
        assert(st[p + 1] == after_event(st[p], events[p]));
        lemma_no_partial_since(s, events, i, p);
        assert(!asks(st[p], events[p], SegmentAction::Final));
        assert(!asks(st[p], events[p], SegmentAction::Partial));
    }
}

/// Partials come every PARTIAL_EVERY samples while speech lasts: in any run
/// of samples and VAD results, each partial holds at least PARTIAL_EVERY
/// samples more than the partial before it when no final came between them;
/// the first partial after a final, or in a run from a segmenter not in
/// speech, holds at least PARTIAL_EVERY samples; and the VAD run on which
/// speech starts hands nothing on.
pub proof fn law_partials_spaced(s: Segmenter, events: Seq<SegmentEvent>)
    requires
        s.wf(),
        lengths_fit(s, events),
    ensures
        ({
            let st = segment_states(s, events);
            &&& forall|i: int, j: int|
                0 <= i < j < events.len() && asks(st[i], #[trigger] events[i], SegmentAction::Partial) && asks(
                    st[j],
                    #[trigger] events[j],
                    SegmentAction::Partial,
                ) && (forall|m: int| i < m < j ==> !asks(st[m], #[trigger] events[m], SegmentAction::Final))
                    ==> st[j].buffer_len >= st[i].buffer_len + PARTIAL_EVERY
            &&& forall|i: int, j: int|
                0 <= i < j < events.len() && asks(st[i], #[trigger] events[i], SegmentAction::Final) && asks(
                    st[j],
                    #[trigger] events[j],
                    SegmentAction::Partial,
                ) && (forall|m: int|
                    i < m < j ==> !asks(st[m], #[trigger] events[m], SegmentAction::Final) && !asks(
                        st[m],
                        events[m],
                        SegmentAction::Partial,
                    )) ==> st[j].buffer_len >= PARTIAL_EVERY
            &&& forall|j: int|
                0 <= j < events.len() && !s.in_speech && asks(st[j], #[trigger] events[j], SegmentAction::Partial)
                    && (forall|m: int|
                    0 <= m < j ==> !asks(st[m], #[trigger] events[m], SegmentAction::Final) && !asks(
                        st[m],
                        events[m],
                        SegmentAction::Partial,
                    )) ==> st[j].buffer_len >= PARTIAL_EVERY
            &&& forall|k: int|
                0 <= k < events.len() && !st[k].in_speech && (#[trigger] st[k + 1]).in_speech ==> asks(
                    st[k],
                    events[k],
                    SegmentAction::Keep,
                )
        }),
{
    lemma_segment_states(s, events);
    let st = segment_states(s, events);
    assert forall|i: int, j: int|
        0 <= i < j < events.len() && asks(st[i], #[trigger] events[i], SegmentAction::Partial) && asks(
            st[j],
            #[trigger] events[j],
            SegmentAction::Partial,
        ) && (forall|m: int| i < m < j ==> !asks(st[m], #[trigger] events[m], SegmentAction::Final))
        implies st[j].buffer_len >= st[i].buffer_len + PARTIAL_EVERY by {
        lemma_after_partial(s, events, i, j);
    }
    assert forall|i: int, j: int|
        0 <= i < j < events.len() && asks(st[i], #[trigger] events[i], SegmentAction::Final) && asks(
            st[j],
            #[trigger] events[j],
            SegmentAction::Partial,
        ) && (forall|m: int|
            i < m < j ==> !asks(st[m], #[trigger] events[m], SegmentAction::Final) && !asks(
                st[m],
                events[m],
                SegmentAction::Partial,
            )) implies st[j].buffer_len >= PARTIAL_EVERY by {
        assert(st[i + 1].last_partial_at == 0);
        lemma_no_partial_since(s, events, i + 1, j);
    }
    assert forall|j: int|
        0 <= j < events.len() && !s.in_speech && asks(st[j], #[trigger] events[j], SegmentAction::Partial)
            && (forall|m: int|
            0 <= m < j ==> !asks(st[m], #[trigger] events[m], SegmentAction::Final) && !asks(
                st[m],
                events[m],
                SegmentAction::Partial,
            )) implies st[j].buffer_len >= PARTIAL_EVERY by {
        lemma_no_partial_since(s, events, 0, j);
    }
    assert forall|k: int| 0 <= k < events.len() && !st[k].in_speech && (#[trigger] st[k + 1]).in_speech implies asks(
        st[k],
        events[k],
        SegmentAction::Keep,
    ) by {
        assert(st[k + 1] == after_event(st[k], events[k]));
    }
}

/// What reaches a sample segmenter: samples, or the result of the VAD run
/// they made due.
pub enum SampleEvent<A> {
    Samples(Seq<A>),
    Vad(Option<(bool, bool)>),
}

/// The samples held after a VAD run in state `s` holding `held`: the silence
/// beyond the pre-roll is dropped from the front, a final empties the
/// buffer, anything else keeps it.
pub open spec fn held_after_vad<A>(s: Segmenter, held: Seq<A>, detection: Option<(bool, bool)>) -> Seq<A> {
    match vad_action(s, detection) {
        SegmentAction::DropFront(k) => held.skip(k as int),
        SegmentAction::Final => Seq::empty(),
        _ => held,
    }
}

/// A sample segmenter (state and samples held) after `e`.
pub open spec fn sample_step<A>(st: (Segmenter, Seq<A>), e: SampleEvent<A>) -> (Segmenter, Seq<A>) {
    match e {
        SampleEvent::Samples(xs) => (after_samples(st.0, xs.len() as usize), st.1 + xs),
        SampleEvent::Vad(d) => (after_vad(st.0, d), held_after_vad(st.0, st.1, d)),
    }
}

/// Whether `e` in state `st` is a VAD run that asks for `action`; a partial
/// or a final hands on the samples `st` holds.
pub open spec fn sample_asks<A>(st: (Segmenter, Seq<A>), e: SampleEvent<A>, action: SegmentAction) -> bool {
    match e {
        SampleEvent::Samples(_) => false,
        SampleEvent::Vad(d) => vad_action(st.0, d) == action,
    }
}

/// The states a sample segmenter goes through from `st` as `events` reach
/// it: the state before each event, then the state after the last.
pub open spec fn sample_states<A>(st: (Segmenter, Seq<A>), events: Seq<SampleEvent<A>>) -> Seq<(Segmenter, Seq<A>)>
    decreases events.len(),
{
    if events.len() == 0 {
        seq![st]
    } else {
        let before = sample_states(st, events.drop_last());
        before.push(sample_step(before.last(), events.last()))
    }
}

/// The samples pushed by `events[i..j]`, one batch after another.
pub open spec fn pushed<A>(events: Seq<SampleEvent<A>>, i: int, j: int) -> Seq<A>
    decreases j - i,
{
    if j <= i {
        Seq::empty()
    } else {
        pushed(events, i, j - 1) + match events[j - 1] {
            SampleEvent::Samples(xs) => xs,
            SampleEvent::Vad(_) => Seq::empty(),
        }
    }
}

/// Whether `s` ends with `t`.
pub open spec fn ends_with<A>(s: Seq<A>, t: Seq<A>) -> bool {
    t.len() <= s.len() && s.skip(s.len() - t.len()) == t
}

/// Whether `s` begins with `t`.
pub open spec fn begins_with<A>(s: Seq<A>, t: Seq<A>) -> bool {
    t.len() <= s.len() && s.take(t.len() as int) == t
}

/// Whether no sample batch in `events` would overflow the buffer length.
pub open spec fn sample_lengths_fit<A>(st: (Segmenter, Seq<A>), events: Seq<SampleEvent<A>>) -> bool {
    forall|k: int|
        0 <= k < events.len() ==> match #[trigger] events[k] {
            SampleEvent::Samples(xs) => sample_states(st, events)[k].0.buffer_len + xs.len() <= usize::MAX,
            SampleEvent::Vad(_) => true,
        }
}

proof fn lemma_sample_states<A>(st: (Segmenter, Seq<A>), events: Seq<SampleEvent<A>>)
    ensures
        sample_states(st, events).len() == events.len() + 1,
        sample_states(st, events)[0] == st,
        forall|k: int|
            0 <= k < events.len() ==> #[trigger] sample_states(st, events)[k + 1] == sample_step(
                sample_states(st, events)[k],
                events[k],
            ),
    decreases events.len(),
{
    if events.len() > 0 {
        let d = events.drop_last();
        lemma_sample_states(st, d);
        assert forall|k: int| 0 <= k < events.len() implies #[trigger] sample_states(st, events)[k + 1]
            == sample_step(sample_states(st, events)[k], events[k]) by {
            if k < events.len() - 1 {
                assert(events[k] == d[k]);
            }
        }
    }
}

/// The buffer length counts the samples held, all along a run.
proof fn lemma_sample_lengths<A>(st: (Segmenter, Seq<A>), events: Seq<SampleEvent<A>>, k: int)
    requires
        0 <= k <= events.len(),
        st.0.buffer_len == st.1.len(),
        sample_lengths_fit(st, events),
    ensures
        sample_states(st, events)[k].0.buffer_len == sample_states(st, events)[k].1.len(),
    decreases k,
{
    lemma_sample_states(st, events);
    if k > 0 {
        let p = k - 1;
        lemma_sample_lengths(st, events, p);
        let sts = sample_states(st, events);
        assert(sts[p + 1] == sample_step(sts[p], events[p]));
        match events[p] {
            SampleEvent::Samples(xs) => {
                assert(sts[p].0.buffer_len + xs.len() <= usize::MAX);
            },
            SampleEvent::Vad(d) => {},
        }
    }
}

/// From a final (or an empty start) on, until the next final, the samples
/// held are the last ones pushed since.
proof fn lemma_held_ends_pushed<A>(st: (Segmenter, Seq<A>), events: Seq<SampleEvent<A>>, i: int, k: int)
    requires
        0 <= i <= k <= events.len(),
        st.0.buffer_len == st.1.len(),
        sample_lengths_fit(st, events),
        sample_states(st, events)[i].1 == Seq::<A>::empty(),
        forall|m: int| i <= m < k ==> !sample_asks(sample_states(st, events)[m], #[trigger] events[m], SegmentAction::Final),
    ensures
        ends_with(pushed(events, i, k), sample_states(st, events)[k].1),
    decreases k - i,
{
    lemma_sample_states(st, events);
    let sts = sample_states(st, events);
    if k == i {
        assert(pushed(events, i, k) =~= Seq::<A>::empty());
        assert(pushed(events, i, k).skip(0) =~= sts[k].1);
    } else {
        let p = k - 1;
        lemma_held_ends_pushed(st, events, i, p);
        lemma_sample_lengths(st, events, p);
        assert(sts[p + 1] == sample_step(sts[p], events[p]));
        assert(!sample_asks(sts[p], events[p], SegmentAction::Final));
        let before = pushed(events, i, p);
        let h = sts[p].1;
        assert(before.skip(before.len() - h.len()) == h);
        match events[p] {
            SampleEvent::Samples(xs) => {
                assert(pushed(events, i, k) == before + xs);
                assert(sts[k].1 == h + xs);
                assert((before + xs).skip((before + xs).len() - (h + xs).len()) =~= before.skip(before.len() - h.len()) + xs);
            },
            SampleEvent::Vad(d) => {
                assert(pushed(events, i, k) =~= before + Seq::<A>::empty());
                assert(before + Seq::<A>::empty() =~= before);
                match vad_action(sts[p].0, d) {
                    SegmentAction::DropFront(m) => {
                        assert(sts[p].0.buffer_len > PRE_ROLL);
                        assert(m <= h.len());
                        assert(sts[k].1 == h.skip(m as int));
                        assert(before.skip(before.len() - h.skip(m as int).len()) =~= before.skip(before.len() - h.len()).skip(m as int));
                    },
                    _ => {
                        assert(sts[k].1 == h);
                    },
                }
            },
        }
    }
}

/// From a partial on, until the next final, the buffer stays in speech and
/// keeps the samples that partial handed on at its front.
proof fn lemma_partial_begins_held<A>(st: (Segmenter, Seq<A>), events: Seq<SampleEvent<A>>, i: int, k: int)
    requires
        0 <= i < k <= events.len(),
        sample_asks(sample_states(st, events)[i], events[i], SegmentAction::Partial),
        forall|m: int| i < m < k ==> !sample_asks(sample_states(st, events)[m], #[trigger] events[m], SegmentAction::Final),
    ensures
        sample_states(st, events)[k].0.in_speech,
        begins_with(sample_states(st, events)[k].1, sample_states(st, events)[i].1),
    decreases k - i,
{
    lemma_sample_states(st, events);
    let sts = sample_states(st, events);
    let p = k - 1;
    assert(sts[p + 1] == sample_step(sts[p], events[p]));
    if k > i + 1 {
        lemma_partial_begins_held(st, events, i, p);
        assert(!sample_asks(sts[p], events[p], SegmentAction::Final));
        match events[p] {
            SampleEvent::Samples(xs) => {
                assert((sts[p].1 + xs).take(sts[i].1.len() as int) =~= sts[p].1.take(sts[i].1.len() as int));
            },
            SampleEvent::Vad(d) => {
                assert(vad_action(sts[p].0, d) != SegmentAction::Final);
                assert(sts[k].1 == sts[p].1);
            },
        }
    } else {
        assert(sts[k].1 == sts[i].1);
        assert(sts[i].1.take(sts[i].1.len() as int) =~= sts[i].1);
    }
}

/// Over any run of a sample segmenter that starts empty, with the VAD
/// results as inputs: every final hands on a contiguous run of samples, the
/// last ones pushed since the previous final (or since the start); and a
/// partial hands on a beginning of what the next final hands on.
pub proof fn law_finals_hand_on_pushed_samples<A>(s: Segmenter, events: Seq<SampleEvent<A>>)
    requires
        s.wf(),
        s.buffer_len == 0,
        sample_lengths_fit((s, Seq::<A>::empty()), events),
    ensures
        ({
            let sts = sample_states((s, Seq::<A>::empty()), events);
            &&& forall|i: int, j: int|
                0 <= i <= j < events.len() && (i == 0 || sample_asks(sts[i - 1], events[i - 1], SegmentAction::Final))
                    && sample_asks(sts[j], #[trigger] events[j], SegmentAction::Final) && (forall|m: int|
                    i <= m < j ==> !sample_asks(sts[m], #[trigger] events[m], SegmentAction::Final))
                    ==> #[trigger] ends_with(pushed(events, i, j), sts[j].1)
            &&& forall|i: int, j: int|
                0 <= i < j < events.len() && sample_asks(sts[i], #[trigger] events[i], SegmentAction::Partial)
                    && sample_asks(sts[j], #[trigger] events[j], SegmentAction::Final) && (forall|m: int|
                    i < m < j ==> !sample_asks(sts[m], #[trigger] events[m], SegmentAction::Final))
                    ==> begins_with(sts[j].1, sts[i].1)
        }),
{
    let st = (s, Seq::<A>::empty());
    lemma_sample_states(st, events);
    let sts = sample_states(st, events);
    assert forall|i: int, j: int|
        0 <= i <= j < events.len() && (i == 0 || sample_asks(sts[i - 1], events[i - 1], SegmentAction::Final))
            && sample_asks(sts[j], #[trigger] events[j], SegmentAction::Final) && (forall|m: int|
            i <= m < j ==> !sample_asks(sts[m], #[trigger] events[m], SegmentAction::Final))
        implies #[trigger] ends_with(pushed(events, i, j), sts[j].1) by {
        if i > 0 {
            let p = i - 1;
            assert(sts[p + 1] == sample_step(sts[p], events[p]));
        }
        lemma_held_ends_pushed(st, events, i, j);
    }
    assert forall|i: int, j: int|
        0 <= i < j < events.len() && sample_asks(sts[i], #[trigger] events[i], SegmentAction::Partial)
            && sample_asks(sts[j], #[trigger] events[j], SegmentAction::Final) && (forall|m: int|
            i < m < j ==> !sample_asks(sts[m], #[trigger] events[m], SegmentAction::Final))
        implies begins_with(sts[j].1, sts[i].1) by {
        lemma_partial_begins_held(st, events, i, j);
    }
}

/// What the segmenter hands on: a copy of the utterance so far, or the
/// finished utterance.
pub enum SegmenterOutput<A> {
    Partial(Vec<A>),
    Final(Vec<A>),
}

/// The segmenter together with the 16 kHz samples it segments (of any
/// sample type: the VAD that judges them stays with the caller).
pub struct SampleSegmenter<A> {
    state: Segmenter,
    samples: Vec<A>,
}

impl<A: Copy> SampleSegmenter<A> {
    /// The decisions' state.
    pub closed spec fn state(&self) -> Segmenter {
        self.state
    }

    /// The samples of the utterance being gathered (or of the pre-roll).
    pub closed spec fn samples(&self) -> Seq<A> {
        self.samples@
    }

    /// The state is consistent and counts exactly the samples held.
    pub closed spec fn wf(&self) -> bool {
        &&& self.state.wf()
        &&& self.samples@.len() == self.state.buffer_len
    }

    pub fn new() -> (s: Self)
        ensures
            s.wf(),
            s.samples() == Seq::<A>::empty(),
            !s.state().in_speech,
            s.state().samples_since_vad == 0,
            s.state().vad_calls == 0,
    {
        SampleSegmenter { state: Segmenter::new(), samples: Vec::new() }
    }

    /// Number of samples held.
    pub fn len(&self) -> (n: usize)
        ensures
            n == self.samples().len(),
    {
        self.samples.len()
    }

    /// VAD runs since the context was last created.
    pub fn vad_calls(&self) -> (n: usize)
        ensures
            n == self.state().vad_calls,
    {
        self.state.vad_calls
    }

    /// Appends `samples`; a VAD run is due as [`Segmenter::push`] says.
    pub fn push(&mut self, samples: &[A]) -> (round: Option<VadRound>)
        requires
            old(self).wf(),
            old(self).samples().len() + samples@.len() <= usize::MAX,
            old(self).state().vad_calls < usize::MAX,
        ensures
            final(self).wf(),
            final(self).samples() == old(self).samples() + samples@,
            final(self).state() == after_samples(old(self).state(), samples@.len() as usize),
            match round {
                None => old(self).state().samples_since_vad + samples@.len() < VAD_INTERVAL,
                Some(r) => {
                    &&& old(self).state().samples_since_vad + samples@.len() >= VAD_INTERVAL
                    &&& r.recreate == (final(self).state().vad_calls >= VAD_RECREATE_EVERY)
                    &&& r.window_len == if final(self).samples().len() < TAIL_WINDOW {
                        final(self).samples().len() as int
                    } else {
                        TAIL_WINDOW as int
                    }
                    &&& r.window_start + r.window_len == final(self).samples().len()
                },
            },
    {
        let mut i: usize = 0;
        while i < samples.len()
            invariant
                i <= samples@.len(),
                self.state == old(self).state,
                self.samples@ == old(self).samples@ + samples@.take(i as int),
            decreases samples.len() - i,
        {
            self.samples.push(samples[i]);
            i = i + 1;
            assert(self.samples@ =~= old(self).samples@ + samples@.take(i as int));
        }
        assert(samples@.take(samples@.len() as int) =~= samples@);
        self.state.push(samples.len())
    }

    /// The VAD context was recreated: the call count starts over.
    pub fn vad_recreated(&mut self)
        requires
            old(self).wf(),
        ensures
            final(self).wf(),
            final(self).samples() == old(self).samples(),
            final(self).state() == (Segmenter { vad_calls: 0, ..old(self).state() }),
    {
        self.state.vad_recreated();
    }

    /// A copy of the `len` samples from `start`: the window a VAD run looks at.
    pub fn window(&self, start: usize, len: usize) -> (w: Vec<A>)
        requires
            start + len <= self.samples().len(),
        ensures
            w@ == self.samples().subrange(start as int, start + len),
    {
        let mut w: Vec<A> = Vec::new();
        let held = self.samples.len();
        assert(start + len <= held);
        let end = start + len;
        let mut i: usize = start;
        while i < end
            invariant
                start <= i <= end <= self.samples@.len(),
                end == start + len,
                w@ == self.samples@.subrange(start as int, i as int),
            decreases end - i,
        {
            w.push(self.samples[i]);
            i = i + 1;
            assert(w@ =~= self.samples@.subrange(start as int, i as int));
        }
        w
    }

    /// Acts on a VAD run (see [`vad_action`]): the silence beyond the
    /// pre-roll is dropped from the front, keeping the last PRE_ROLL
    /// samples; a partial hands on a copy of every sample held; a final
    /// hands on every sample held and empties the buffer.
    pub fn on_vad(&mut self, detection: Option<(bool, bool)>) -> (out: Option<SegmenterOutput<A>>)
        requires
            old(self).wf(),
            old(self).state().samples_since_vad == 0,
        ensures
            final(self).wf(),
            final(self).state() == after_vad(old(self).state(), detection),
            final(self).samples() == held_after_vad(old(self).state(), old(self).samples(), detection),
            match vad_action(old(self).state(), detection) {
                SegmentAction::Keep => out.is_none() && final(self).samples() == old(self).samples(),
                SegmentAction::DropFront(k) => {
                    &&& out.is_none()
                    &&& k == old(self).samples().len() - PRE_ROLL
                    &&& final(self).samples() == old(self).samples().skip(k as int)
                },
                SegmentAction::Partial => out matches Some(SegmenterOutput::Partial(v)) && v@ == old(
                    self,
                ).samples() && final(self).samples() == old(self).samples(),
                SegmentAction::Final => out matches Some(SegmenterOutput::Final(v)) && v@ == old(
                    self,
                ).samples() && final(self).samples() == Seq::<A>::empty(),
            },
    {
        let action = self.state.on_vad(detection);
        match action {
            SegmentAction::Keep => None,
            SegmentAction::DropFront(k) => {
                let mut rest: Vec<A> = Vec::new();
                let mut i: usize = k;
                while i < self.samples.len()
                    invariant
                        k <= i <= self.samples@.len(),
                        self.samples@ == old(self).samples@,
                        rest@ == self.samples@.subrange(k as int, i as int),
                    decreases self.samples.len() - i,
                {
                    rest.push(self.samples[i]);
                    i = i + 1;
                    assert(rest@ =~= self.samples@.subrange(k as int, i as int));
                }
                self.samples = rest;
                assert(self.samples@ =~= old(self).samples@.skip(k as int));
                None
            },
            SegmentAction::Partial => {
                let copy = self.window(0, self.samples.len());
                assert(copy@ =~= self.samples@);
                Some(SegmenterOutput::Partial(copy))
            },
            SegmentAction::Final => {
                let mut all: Vec<A> = Vec::new();
                std::mem::swap(&mut all, &mut self.samples);
                Some(SegmenterOutput::Final(all))
            },
        }
    }
}

} // verus!
