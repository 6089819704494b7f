//! Scheduling and post-processing of whisper inference jobs.
use vstd::prelude::*;

use crate::events::{SourceKind, TranscriptEvent};
use crate::text::{trim_text, trimmed};
use crate::translate::queue::TranslationRequest;

verus! {

/// Whether a job transcribes a growing utterance or a finished one.
#[derive(Clone, Copy, Debug, PartialEq, Eq, Structural)]
pub enum JobKind {
    Partial,
    Final,
}

/// One inference request for the whisper thread; `A` is the audio it carries.
pub struct TranscribeJob<A> {
    pub source: SourceKind,
    pub utterance_id: String,
    pub kind: JobKind,
    pub audio: A,
    /// Language passed to whisper ("ja" / "en")
    pub language: &'static str,
    /// Whether the finalized text is sent to the translation queue
    pub translate: bool,
}

/// Whether jobs `a` and `b` belong to the same utterance of the same source.
pub open spec fn same_utterance<A>(a: TranscribeJob<A>, b: TranscribeJob<A>) -> bool {
    a.source == b.source && a.utterance_id@ == b.utterance_id@
}

/// Whether job `i` is a partial worth running: no final of its utterance is
/// in the batch, and no later partial of it either.
pub open spec fn kept_partial<A>(jobs: Seq<TranscribeJob<A>>, i: int) -> bool {
    &&& jobs[i].kind == JobKind::Partial
    &&& forall|j: int|
        0 <= j < jobs.len() && same_utterance(#[trigger] jobs[j], jobs[i]) ==> jobs[j].kind
            != JobKind::Final
    &&& forall|j: int|
        i < j < jobs.len() && same_utterance(#[trigger] jobs[j], jobs[i]) ==> jobs[j].kind
            != JobKind::Partial
}

/// The indices below `n` that satisfy `f`, in increasing order.
pub open spec fn indices_where(n: nat, f: spec_fn(int) -> bool) -> Seq<int>
    decreases n,
{
    if n == 0 {
        Seq::empty()
    } else if f(n - 1) {
        indices_where((n - 1) as nat, f).push(n - 1)
    } else {
        indices_where((n - 1) as nat, f)
    }
}

/// The order in which a batch runs: all finals, in arrival order, then the
/// partials worth running, in arrival order.
pub open spec fn coalesce_order<A>(jobs: Seq<TranscribeJob<A>>) -> Seq<int> {
    indices_where(jobs.len(), |i: int| jobs[i].kind == JobKind::Final) + indices_where(
        jobs.len(),
        |i: int| kept_partial(jobs, i),
    )
}

/// The indices that `indices_where` lists are increasing, in range, and satisfy `f`.
pub proof fn lemma_indices_where(n: nat, f: spec_fn(int) -> bool)
    ensures
        forall|a: int, b: int|
            0 <= a < b < indices_where(n, f).len() ==> #[trigger] indices_where(n, f)[a]
                < #[trigger] indices_where(n, f)[b],
        forall|a: int|
            0 <= a < indices_where(n, f).len() ==> 0 <= #[trigger] indices_where(n, f)[a] < n && f(
                indices_where(n, f)[a],
            ),
    decreases n,
{
    if n > 0 {
        lemma_indices_where((n - 1) as nat, f);
        let prev = indices_where((n - 1) as nat, f);
        if f(n - 1) {
            assert(indices_where(n, f) == prev.push(n - 1));
            assert(forall|a: int| 0 <= a < prev.len() ==> prev.push(n - 1)[a] == prev[a]);
            assert(prev.push(n - 1)[prev.len() as int] == n - 1);
        } else {
            assert(indices_where(n, f) == prev);
        }
    }
}

/// Every index below `n` that satisfies `f` is listed.
pub proof fn lemma_indices_where_complete(n: nat, f: spec_fn(int) -> bool, i: int)
    requires
        0 <= i < n,
        f(i),
    ensures
        indices_where(n, f).contains(i),
    decreases n,
{
    let prev = indices_where((n - 1) as nat, f);
    if i == n - 1 {
        assert(indices_where(n, f) == prev.push(n - 1));
        assert(prev.push(n - 1)[prev.len() as int] == i);
    } else {
        lemma_indices_where_complete((n - 1) as nat, f, i);
        let a = choose|a: int| 0 <= a < prev.len() && prev[a] == i;
        if f(n - 1) {
            assert(prev.push(n - 1)[a] == i);
        }
    }
}

/// No job runs twice: the batch order lists each index at most once.
proof fn lemma_order_distinct<A>(jobs: Seq<TranscribeJob<A>>, order: Seq<int>, k: int)
    requires
        order == coalesce_order(jobs),
        0 <= k < order.len(),
    ensures
        forall|m: int| 0 <= m < k ==> order[m] != order[k],
{
    let fin = indices_where(jobs.len(), |i: int| jobs[i].kind == JobKind::Final);
    let par = indices_where(jobs.len(), |i: int| kept_partial(jobs, i));
    lemma_indices_where(jobs.len(), |i: int| jobs[i].kind == JobKind::Final);
    lemma_indices_where(jobs.len(), |i: int| kept_partial(jobs, i));
    assert forall|m: int| 0 <= m < k implies order[m] != order[k] by {
        if k < fin.len() {
            assert(order[m] == fin[m] && order[k] == fin[k]);
        } else if m >= fin.len() {
            assert(order[m] == par[m - fin.len()] && order[k] == par[k - fin.len()]);
        } else {
            assert(order[m] == fin[m] && order[k] == par[k - fin.len()]);
            assert(jobs[fin[m]].kind == JobKind::Final);
            assert(kept_partial(jobs, par[k - fin.len()]));
        }
    }
}

/// Whether job `i` and job `j` are of the same utterance.
fn same_utterance_at<A>(jobs: &Vec<TranscribeJob<A>>, i: usize, j: usize) -> (b: bool)
    requires
        i < jobs.len(),
        j < jobs.len(),
    ensures
        b == same_utterance(jobs@[i as int], jobs@[j as int]),
{
    jobs[i].source == jobs[j].source && jobs[i].utterance_id == jobs[j].utterance_id
}

/// Whether job `i` is a partial worth running; see [`kept_partial`].
fn is_kept_partial<A>(jobs: &Vec<TranscribeJob<A>>, i: usize) -> (b: bool)
    requires
        i < jobs.len(),
    ensures
        b == kept_partial(jobs@, i as int),
{
    if jobs[i].kind != JobKind::Partial {
        return false;
    }
    let mut j: usize = 0;
    while j < jobs.len()
        invariant
            i < jobs.len(),
            j <= jobs.len(),
            forall|k: int|
                0 <= k < j && same_utterance(#[trigger] jobs@[k], jobs@[i as int]) ==> jobs@[k].kind
                    != JobKind::Final,
            forall|k: int|
                i < k < j && same_utterance(#[trigger] jobs@[k], jobs@[i as int]) ==> jobs@[k].kind
                    != JobKind::Partial,
        decreases jobs.len() - j,
    {
        if same_utterance_at(jobs, j, i) {
            if jobs[j].kind == JobKind::Final {
                return false;
            }
            if j > i && jobs[j].kind == JobKind::Partial {
                return false;
            }
        }
        j = j + 1;
    }
    true
}

/// Keeps only the latest partial per (source, utterance). Finals are always
/// kept. Partials for utterances that already have a pending final are
/// useless and dropped. Finals come first to minimize the latency of
/// finalized captions.
pub fn coalesce<A>(jobs: Vec<TranscribeJob<A>>) -> (run: Vec<TranscribeJob<A>>)
    ensures
        run@ == coalesce_order(jobs@).map_values(|i: int| jobs@[i]),
{
    let n = jobs.len();
    let ghost finals_pred = |i: int| jobs@[i].kind == JobKind::Final;
    let ghost partials_pred = |i: int| kept_partial(jobs@, i);
    let mut order: Vec<usize> = Vec::new();
    let ghost mut og: Seq<int> = Seq::empty();
    let mut i: usize = 0;
    while i < n
        invariant
            n == jobs.len(),
            i <= n,
            finals_pred == (|i: int| jobs@[i].kind == JobKind::Final),
            og == indices_where(i as nat, finals_pred),
            og.len() == order.len(),
            forall|k: int| 0 <= k < order.len() ==> #[trigger] order@[k] as int == og[k],
            forall|k: int| 0 <= k < order.len() ==> #[trigger] order@[k] < n,
        decreases n - i,
    {
        if jobs[i].kind == JobKind::Final {
            order.push(i);
            proof {
                og = og.push(i as int);
            }
        }
        i = i + 1;
    }
    let ghost final_order = og;
    let mut i: usize = 0;
    while i < n
        invariant
            n == jobs.len(),
            i <= n,
            partials_pred == (|i: int| kept_partial(jobs@, i)),
            og == final_order + indices_where(i as nat, partials_pred),
            final_order == indices_where(n as nat, finals_pred),
            og.len() == order.len(),
            forall|k: int| 0 <= k < order.len() ==> #[trigger] order@[k] as int == og[k],
            forall|k: int| 0 <= k < order.len() ==> #[trigger] order@[k] < n,
        decreases n - i,
    {
        if is_kept_partial(&jobs, i) {
            order.push(i);
            proof {
                og = og.push(i as int);
            }
        }
        i = i + 1;
        assert(og =~= final_order + indices_where(i as nat, partials_pred));
    }
    assert(og =~= coalesce_order(jobs@));
    let ghost batch = jobs@;
    let mut slots: Vec<Option<TranscribeJob<A>>> = Vec::new();
    for job in it: jobs
        invariant
            batch == it.seq(),
            slots.len() == it.index(),
            forall|k: int| 0 <= k < slots.len() ==> #[trigger] slots@[k] == Some(batch[k]),
    {
        slots.push(Some(job));
    }
    assert forall|m: int| 0 <= m < og.len() implies 0 <= #[trigger] og[m] < n by {
        assert(order@[m] as int == og[m]);
    }
    let mut run: Vec<TranscribeJob<A>> = Vec::new();
    let mut k: usize = 0;
    while k < order.len()
        invariant
            k <= order.len(),
            slots.len() == batch.len() == n,
            og == coalesce_order(batch),
            og.len() == order.len(),
            forall|m: int| 0 <= m < order.len() ==> #[trigger] order@[m] as int == og[m],
            forall|m: int| 0 <= m < order.len() ==> #[trigger] order@[m] < n,
            run.len() == k,
            forall|m: int| 0 <= m < k ==> #[trigger] run@[m] == batch[og[m]],
            forall|m: int| 0 <= m < og.len() ==> 0 <= #[trigger] og[m] < n,
            forall|m: int| k <= m < order.len() ==> #[trigger] slots@[og[m]] == Some(batch[og[m]]),
        decreases order.len() - k,
    {
        let s = order[k];
        proof {
            assert forall|m: int| k < m < order.len() implies og[m] != og[k as int] by {
                lemma_order_distinct(batch, og, m);
            }
        }
        let mut taken: Option<TranscribeJob<A>> = None;
        std::mem::swap(&mut taken, &mut slots[s]);
        match taken {
            Some(job) => run.push(job),
            None => {
                assert(false);
            },
        }
        k = k + 1;
    }
    assert(run@ =~= coalesce_order(batch).map_values(|i: int| batch[i]));
    run
}


/// What a coalesced batch keeps: every final, in arrival order and before
/// any partial; no partial of an utterance that has a final in the batch;
/// and of each utterance's partials only the latest.
pub proof fn law_coalesce<A>(jobs: Seq<TranscribeJob<A>>)
    ensures
        ({
            let order = coalesce_order(jobs);
            &&& forall|i: int|
                0 <= i < jobs.len() && #[trigger] jobs[i].kind == JobKind::Final ==> order.contains(i)
            &&& forall|a: int, b: int|
                0 <= a < b < order.len() && jobs[#[trigger] order[b]].kind == JobKind::Final
                    ==> jobs[#[trigger] order[a]].kind == JobKind::Final
            &&& forall|a: int|
                0 <= a < order.len() && jobs[#[trigger] order[a]].kind == JobKind::Partial ==> kept_partial(
                    jobs,
                    order[a],
                )
            &&& forall|a: int, b: int|
                0 <= a < b < order.len() && jobs[#[trigger] order[a]].kind == JobKind::Partial
                    && jobs[#[trigger] order[b]].kind == JobKind::Partial ==> !same_utterance(
                    jobs[order[a]],
                    jobs[order[b]],
                )
        }),
{
    let is_final = |i: int| jobs[i].kind == JobKind::Final;
    let fin = indices_where(jobs.len(), is_final);
    let par = indices_where(jobs.len(), |i: int| kept_partial(jobs, i));
    lemma_indices_where(jobs.len(), is_final);
    lemma_indices_where(jobs.len(), |i: int| kept_partial(jobs, i));
    let order = coalesce_order(jobs);
    assert(fin == indices_where(jobs.len(), |i: int| jobs[i].kind == JobKind::Final));
    assert forall|i: int| 0 <= i < jobs.len() && #[trigger] jobs[i].kind == JobKind::Final implies order.contains(i) by {
        lemma_indices_where_complete(jobs.len(), is_final, i);
        let a = choose|a: int| 0 <= a < fin.len() && fin[a] == i;
        assert(order[a] == i);
    }
    assert forall|a: int, b: int|
        0 <= a < b < order.len() && jobs[#[trigger] order[b]].kind == JobKind::Final implies jobs[#[trigger] order[a]].kind
        == JobKind::Final by {
        if b >= fin.len() {
            assert(order[b] == par[b - fin.len()]);
            assert(kept_partial(jobs, par[b - fin.len()]));
        } else {
            assert(order[a] == fin[a]);
        }
    }
    assert forall|a: int|
        0 <= a < order.len() && jobs[#[trigger] order[a]].kind == JobKind::Partial implies kept_partial(
        jobs,
        order[a],
    ) by {
        if a < fin.len() {
            assert(order[a] == fin[a]);
        } else {
            assert(order[a] == par[a - fin.len()]);
        }
    }
    assert forall|a: int, b: int|
        0 <= a < b < order.len() && jobs[#[trigger] order[a]].kind == JobKind::Partial
            && jobs[#[trigger] order[b]].kind == JobKind::Partial implies !same_utterance(
        jobs[order[a]],
        jobs[order[b]],
    ) by {
        if a < fin.len() {
            assert(order[a] == fin[a]);
        } else if b < fin.len() {
            assert(order[b] == fin[b]);
        } else {
            assert(order[a] == par[a - fin.len()] && order[b] == par[b - fin.len()]);
            assert(par[a - fin.len()] < par[b - fin.len()]);
            assert(kept_partial(jobs, order[a]));
            if same_utterance(jobs[order[a]], jobs[order[b]]) {
                assert(same_utterance(jobs[order[b]], jobs[order[a]]));
            }
        }
    }
}


/// A coalesced batch keeps arrival order within each kind: of two finals,
/// the one that arrived first runs first, and likewise of two partials.
pub proof fn law_coalesce_keeps_arrival_order<A>(jobs: Seq<TranscribeJob<A>>)
    ensures
        forall|a: int, b: int|
            0 <= a < b < coalesce_order(jobs).len() && jobs[#[trigger] coalesce_order(jobs)[a]].kind
                == jobs[#[trigger] coalesce_order(jobs)[b]].kind ==> coalesce_order(jobs)[a] < coalesce_order(
                jobs,
            )[b],
{
    let is_final = |i: int| jobs[i].kind == JobKind::Final;
    let is_kept = |i: int| kept_partial(jobs, i);
    let fin = indices_where(jobs.len(), is_final);
    let par = indices_where(jobs.len(), is_kept);
    lemma_indices_where(jobs.len(), is_final);
    lemma_indices_where(jobs.len(), is_kept);
    let order = coalesce_order(jobs);
    assert(order == fin + par);
    let nf = fin.len() as int;
    assert forall|a: int, b: int|
        0 <= a < b < order.len() && jobs[#[trigger] order[a]].kind == jobs[#[trigger] order[b]].kind implies order[a]
        < order[b] by {
        if b < nf {
            assert(order[a] == fin[a] && order[b] == fin[b]);
        } else if a >= nf {
            assert(order[a] == par[a - nf] && order[b] == par[b - nf]);
        } else {
            assert(order[a] == fin[a] && order[b] == par[b - nf]);
            assert(is_final(fin[a]));
            assert(is_kept(par[b - nf]));
        }
    }
}

/// Concatenation of `parts`.
pub open spec fn concat_all(parts: Seq<Seq<char>>) -> Seq<char>
    decreases parts.len(),
{
    if parts.len() == 0 {
        Seq::empty()
    } else {
        concat_all(parts.drop_last()) + parts.last()
    }
}

/// What the whisper thread does with the text of a finished job.
pub struct TranscriptOutcome {
    /// The caption to show
    pub event: TranscriptEvent,
    /// Whether the utterance goes into the session history
    pub record: bool,
    /// The request for the translation queue, in English meeting mode
    pub translation: Option<TranslationRequest>,
}

/// Turns the recognized segments of a job (those whisper did not judge to be
/// silence) into what is shown, recorded and translated: nothing when the
/// trimmed text is empty; otherwise a caption, a history entry for a final,
/// and a translation request for a final of a translated meeting.
pub fn transcript_outcome<A>(job: &TranscribeJob<A>, segments: &Vec<String>) -> (out: Option<TranscriptOutcome>)
    ensures
        ({
            let text = trimmed(concat_all(crate::text::views(segments@)));
            match out {
                None => text.len() == 0,
                Some(o) => {
                    &&& text.len() > 0
                    &&& o.event.utterance_id@ == job.utterance_id@
                    &&& o.event.source == job.source
                    &&& o.event.text@ == text
                    &&& o.event.is_final == (job.kind == JobKind::Final)
                    &&& o.record == (job.kind == JobKind::Final)
                    &&& match o.translation {
                        Some(r) => job.kind == JobKind::Final && job.translate && r.utterance_id@
                            == job.utterance_id@ && r.text@ == text,
                        None => !(job.kind == JobKind::Final && job.translate),
                    }
                },
            }
        }),
{
    let ghost sv = crate::text::views(segments@);
    let mut joined = String::new();
    let mut i: usize = 0;
    while i < segments.len()
        invariant
            i <= segments.len(),
            sv == crate::text::views(segments@),
            joined@ == concat_all(sv.take(i as int)),
        decreases segments.len() - i,
    {
        assert(sv.take(i + 1).drop_last() =~= sv.take(i as int));
        joined.append(segments[i].as_str());
        i = i + 1;
    }
    assert(sv.take(segments.len() as int) =~= sv);
    let text = trim_text(joined.as_str());
    outcome_for_text(job, text)
}

/// What is shown, recorded and translated for `text`, the trimmed text of
/// `job`; see [`transcript_outcome`].
pub fn outcome_for_text<A>(job: &TranscribeJob<A>, text: String) -> (out: Option<TranscriptOutcome>)
    ensures
        match out {
            None => text@.len() == 0,
            Some(o) => {
                &&& text@.len() > 0
                &&& o.event.utterance_id@ == job.utterance_id@
                &&& o.event.source == job.source
                &&& o.event.text@ == text@
                &&& o.event.is_final == (job.kind == JobKind::Final)
                &&& o.record == (job.kind == JobKind::Final)
                &&& match o.translation {
                    Some(r) => job.kind == JobKind::Final && job.translate && r.utterance_id@
                        == job.utterance_id@ && r.text@ == text@,
                    None => !(job.kind == JobKind::Final && job.translate),
                }
            },
        },
{
    if text.as_str().unicode_len() == 0 {
        return None;
    }
    let is_final = job.kind == JobKind::Final;
    let translation = if is_final && job.translate {
        Some(TranslationRequest { utterance_id: job.utterance_id.clone(), text: text.clone() })
    } else {
        None
    };
    let event = TranscriptEvent { utterance_id: job.utterance_id.clone(), source: job.source, text, is_final };
    Some(TranscriptOutcome { event, record: is_final, translation })
}

/// Whisper threads for a machine with `cores` logical cores: half of them,
/// at least 2 and at most 8.
pub fn inference_threads(cores: usize) -> (n: i32)
    ensures
        n as int == if cores / 2 < 2 {
            2
        } else if cores / 2 > 8 {
            8
        } else {
            cores as int / 2
        },
{
    let half = cores / 2;
    if half < 2 {
        2
    } else if half > 8 {
        8
    } else {
        half as i32
    }
}

/// whisper.cpp gets unstable with inputs under ~1s: audio shorter than this
/// many samples (1.1 s at 16 kHz) is zero-padded to it.
pub const MIN_AUDIO_SAMPLES: usize = 17_600;

} // verus!
